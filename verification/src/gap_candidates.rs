//! The gap-lane candidates of a whole layout: the baseline crossing-aware
//! lanes of every gap, and the global, preserved-refined and refined
//! candidates that replace them, kept only when they predict enough gain.
use vstd::prelude::*;
use std::collections::BTreeMap;
use crate::budget::{
    MAX_GLOBAL_GAP_LANES, MAX_LARGE_GLOBAL_GAP_HOT_NETS, MAX_REFINED_LARGE_GLOBAL_GAP_HOT_NETS,
    MIN_GLOBAL_GAP_ORDER_GAIN,
};
use crate::gap_order::{
    crossing_aware_gap_lane_indices_with_rounds, is_pair_cost, lanes_of_order, refined_order, reported_costs,
    sorted_by_lane,
};
use crate::gap_work::{
    global_gap_candidate_work_within_budget, global_work_fits, refined_large_gap_candidate_work_within_budget,
    refined_work_fits,
};
use crate::global_order::{
    describes_global_candidate, describes_hot_insertion_order, global_gap_lane_indices_with_rounds,
    lemma_global_candidate_is_permutation, lemma_hot_order_is_permutation, lemma_sorted_by_lane_lists_nets,
};
use crate::lane_moves::{candidate_is_permutation, is_lane_permutation, lemma_refined_lanes_are_permutation};
use crate::graph::NetId;
use crate::hot_insertion::{
    hot_prefix, is_large_gap, is_refined_result, lemma_refined_candidates_are_permutations,
    refined_large_gap_hot_insertion_orders, GapLaneOrderCandidates,
};
use crate::ordered::{lemma_ids_ordered, lists_map, map_entries};

verus! {

broadcast use vstd::std_specs::btree::group_btree_axioms;

/// The lane maps of a sequence of gaps, as plain maps.
pub open spec fn lane_views(gaps: Seq<BTreeMap<NetId, usize>>) -> Seq<Map<NetId, usize>> {
    gaps.map_values(|lanes: BTreeMap<NetId, usize>| lanes@)
}

/// Whether two lane maps hold the same entries.
pub fn same_lanes(a: &BTreeMap<NetId, usize>, b: &BTreeMap<NetId, usize>) -> (same: bool)
    ensures
        same == (a@ == b@),
{
    if a.len() != b.len() {
        return false;
    }
    let entries = map_entries(a);
    let mut i: usize = 0;
    while i < entries.len()
        invariant
            i <= entries@.len(),
            lists_map(entries@, a@),
            a@.len() == b@.len(),
            forall|j: int| 0 <= j < i ==> #[trigger] b@.contains_key(entries@[j].0) && b@[entries@[j].0] == entries@[j].1,
        decreases entries@.len() - i,
    {
        let (net, lane) = entries[i];
        proof {
            lemma_ids_ordered();
            assert(a@.contains_key(entries@[i as int].0));
        }
        match b.get(&net) {
            Some(other) => {
                if *other != lane {
                    assert(a@.contains_key(net) && a@[net] == lane);
                    return false;
                }
            },
            None => {
                assert(a@.contains_key(net));
                return false;
            },
        }
        i = i + 1;
    }
    proof {
        assert(a@.dom().subset_of(b@.dom())) by {
            assert forall|net: NetId| a@.dom().contains(net) implies b@.dom().contains(net) by {
                assert(a@.contains_key(net));
                let j = choose|j: int| 0 <= j < entries@.len() && entries@[j].0 == net;
                assert(b@.contains_key(entries@[j].0));
            }
        }
        vstd::set_lib::lemma_subset_equality(a@.dom(), b@.dom());
        assert(a@ =~= b@) by {
            assert forall|net: NetId| #[trigger] a@.contains_key(net) implies a@[net] == b@[net] by {
                let j = choose|j: int| 0 <= j < entries@.len() && entries@[j].0 == net;
                assert(b@.contains_key(entries@[j].0));
            }
        }
    }
    true
}

/// Whether two sequences of lane maps hold the same maps.
pub fn same_lane_vectors(a: &Vec<BTreeMap<NetId, usize>>, b: &Vec<BTreeMap<NetId, usize>>) -> (same: bool)
    ensures
        same == (lane_views(a@) == lane_views(b@)),
{
    if a.len() != b.len() {
        assert(lane_views(a@).len() != lane_views(b@).len());
        return false;
    }
    let mut i: usize = 0;
    while i < a.len()
        invariant
            i <= a@.len(),
            a@.len() == b@.len(),
            forall|j: int| 0 <= j < i ==> (#[trigger] a@[j])@ == b@[j]@,
        decreases a@.len() - i,
    {
        if !same_lanes(&a[i], &b[i]) {
            assert(lane_views(a@)[i as int] != lane_views(b@)[i as int]);
            return false;
        }
        i = i + 1;
    }
    assert(lane_views(a@) =~= lane_views(b@));
    true
}

/// The lanes of every gap, and the candidates that may replace them.
pub struct GapLaneCandidates {
    pub baseline: Vec<BTreeMap<NetId, usize>>,
    pub global: Option<Vec<BTreeMap<NetId, usize>>>,
    pub preserved_refined: Option<Vec<BTreeMap<NetId, usize>>>,
    pub refined: Option<Vec<BTreeMap<NetId, usize>>>,
}

/// What the candidate functions give for one gap: its local lanes, its
/// fused large-gap candidates, and its own global candidate.
pub type GapParts = (BTreeMap<NetId, usize>, GapLaneOrderCandidates, Option<(BTreeMap<NetId, usize>, usize)>);

/// `local` holds the crossing-aware lanes of a gap: its nets in current lane
/// order, refined by `lane_rounds` transpose passes under `cost`.
pub open spec fn is_local_lanes(
    local: Map<NetId, usize>,
    current: Map<NetId, usize>,
    cost: spec_fn(NetId, NetId) -> nat,
    lane_rounds: nat,
) -> bool {
    exists|seed: Seq<NetId>|
        sorted_by_lane(seed, current) && local == lanes_of_order(refined_order(seed, lane_rounds, cost))
}

/// No fused candidate at all.
pub open spec fn no_fused(candidates: GapLaneOrderCandidates) -> bool {
    candidates.global is None && candidates.preserved_refined is None && candidates.refined is None
}

/// `parts` is what a gap gets: its local lanes; when `fused`, the refined
/// large-gap candidates over its local lanes (see
/// `refined_large_gap_hot_insertion_orders`), else none; and when global
/// candidates are on and the gap is not fused, its global candidate over its
/// local lanes (see `global_gap_lane_indices_with_rounds`), else none.
pub open spec fn describes_gap_parts(
    parts: GapParts,
    current: Map<NetId, usize>,
    cost: spec_fn(NetId, NetId) -> nat,
    ranked_hot: Seq<NetId>,
    lane_rounds: nat,
    large_global_candidates: bool,
    global_on: bool,
    fused: bool,
) -> bool {
    &&& is_local_lanes(parts.0@, current, cost, lane_rounds)
    &&& fused && !is_large_gap(parts.0@) ==> no_fused(parts.1)
    &&& fused && is_large_gap(parts.0@) ==> is_refined_result(
        parts.1,
        parts.0@,
        hot_prefix(ranked_hot, MAX_REFINED_LARGE_GLOBAL_GAP_HOT_NETS),
        cost,
    )
    &&& !fused ==> no_fused(parts.1)
    &&& global_on && !fused && current.len() > MAX_GLOBAL_GAP_LANES && large_global_candidates
        ==> describes_hot_insertion_order(parts.2, parts.0@, hot_prefix(ranked_hot, MAX_LARGE_GLOBAL_GAP_HOT_NETS), cost)
    &&& global_on && !fused && current.len() > MAX_GLOBAL_GAP_LANES && !large_global_candidates ==> parts.2 is None
    &&& global_on && !fused && current.len() <= MAX_GLOBAL_GAP_LANES ==> describes_global_candidate(
        parts.2,
        current,
        parts.0@,
        cost,
        lane_rounds,
    )
    &&& !(global_on && !fused) ==> parts.2 is None
}

/// The global candidate of a gap: the fused one when the gap is fused.
pub open spec fn global_choice(parts: GapParts, fused: bool) -> Option<(BTreeMap<NetId, usize>, usize)> {
    if fused {
        parts.1.global
    } else {
        parts.2
    }
}

/// The lanes of a candidate, or `fallback` without one.
pub open spec fn choice_lanes(choice: Option<(BTreeMap<NetId, usize>, usize)>, fallback: Map<NetId, usize>) -> Map<NetId, usize> {
    match choice {
        Some((lanes, _)) => lanes@,
        None => fallback,
    }
}

/// The gain of a candidate, or zero without one.
pub open spec fn choice_gain(choice: Option<(BTreeMap<NetId, usize>, usize)>) -> nat {
    match choice {
        Some((_, gain)) => gain as nat,
        None => 0,
    }
}

/// Gap `g` has more nets than a small gap.
pub open spec fn gap_is_big(current: Seq<BTreeMap<NetId, usize>>, g: int) -> bool {
    current[g]@.len() > MAX_GLOBAL_GAP_LANES
}

/// Gap `g` takes its candidates from the fused large-gap search.
pub open spec fn gap_is_fused(current: Seq<BTreeMap<NetId, usize>>, refined_on: bool, g: int) -> bool {
    refined_on && gap_is_big(current, g)
}

pub open spec fn baseline_lanes(parts: Seq<GapParts>) -> Seq<Map<NetId, usize>> {
    Seq::new(parts.len(), |g: int| parts[g].0@)
}

/// Each gap's global lanes: its global candidate, else its local lanes.
pub open spec fn global_lanes(current: Seq<BTreeMap<NetId, usize>>, parts: Seq<GapParts>, refined_on: bool) -> Seq<
    Map<NetId, usize>,
> {
    Seq::new(parts.len(), |g: int| choice_lanes(global_choice(parts[g], gap_is_fused(current, refined_on, g)), parts[g].0@))
}

pub open spec fn global_gains(current: Seq<BTreeMap<NetId, usize>>, parts: Seq<GapParts>, refined_on: bool) -> Seq<nat> {
    Seq::new(parts.len(), |g: int| choice_gain(global_choice(parts[g], gap_is_fused(current, refined_on, g))))
}

/// Each gap's preserved-refined lanes: for a big gap its fused candidate,
/// else its local lanes; for a small gap its global lanes.
pub open spec fn preserved_lanes(current: Seq<BTreeMap<NetId, usize>>, parts: Seq<GapParts>, refined_on: bool) -> Seq<
    Map<NetId, usize>,
> {
    Seq::new(
        parts.len(),
        |g: int|
            if gap_is_big(current, g) {
                choice_lanes(parts[g].1.preserved_refined, parts[g].0@)
            } else {
                global_lanes(current, parts, refined_on)[g]
            },
    )
}

pub open spec fn preserved_gains(current: Seq<BTreeMap<NetId, usize>>, parts: Seq<GapParts>) -> Seq<nat> {
    Seq::new(
        parts.len(),
        |g: int|
            if gap_is_big(current, g) {
                choice_gain(parts[g].1.preserved_refined)
            } else {
                0
            },
    )
}

/// Each gap's refined lanes: for a big gap its fused candidate, else its
/// local lanes; for a small gap its preserved-refined lanes.
pub open spec fn refined_lanes(current: Seq<BTreeMap<NetId, usize>>, parts: Seq<GapParts>, refined_on: bool) -> Seq<
    Map<NetId, usize>,
> {
    Seq::new(
        parts.len(),
        |g: int|
            if gap_is_big(current, g) {
                choice_lanes(parts[g].1.refined, parts[g].0@)
            } else {
                preserved_lanes(current, parts, refined_on)[g]
            },
    )
}

pub open spec fn refined_gains(current: Seq<BTreeMap<NetId, usize>>, parts: Seq<GapParts>) -> Seq<nat> {
    Seq::new(
        parts.len(),
        |g: int|
            if gap_is_big(current, g) {
                choice_gain(parts[g].1.refined)
            } else {
                0
            },
    )
}

/// Some gap has a global candidate.
pub open spec fn any_global_choice(current: Seq<BTreeMap<NetId, usize>>, parts: Seq<GapParts>, refined_on: bool) -> bool {
    exists|g: int| 0 <= g < parts.len() && (#[trigger] global_choice(parts[g], gap_is_fused(current, refined_on, g))) is Some
}

/// The sum of `gains`, saturating at `usize::MAX` after each addition.
pub open spec fn saturating_total(gains: Seq<nat>) -> nat
    decreases gains.len(),
{
    if gains.len() == 0 {
        0
    } else {
        let sum = saturating_total(gains.drop_last()) + gains.last();
        if sum <= usize::MAX {
            sum
        } else {
            usize::MAX as nat
        }
    }
}

/// The global candidate kept: when global candidates are on, some gap has
/// one, and their gains add up to `MIN_GLOBAL_GAP_ORDER_GAIN`.
pub open spec fn expected_global(
    current: Seq<BTreeMap<NetId, usize>>,
    parts: Seq<GapParts>,
    global_on: bool,
    refined_on: bool,
) -> Option<Seq<Map<NetId, usize>>> {
    if global_on && any_global_choice(current, parts, refined_on) && saturating_total(
        global_gains(current, parts, refined_on),
    ) >= MIN_GLOBAL_GAP_ORDER_GAIN {
        Some(global_lanes(current, parts, refined_on))
    } else {
        None
    }
}

/// The preserved-refined candidate kept: when refined candidates are on, it
/// differs from the global lanes, its gains add up to the minimum, and it is
/// not the global candidate kept.
pub open spec fn expected_preserved(
    current: Seq<BTreeMap<NetId, usize>>,
    parts: Seq<GapParts>,
    global_on: bool,
    refined_on: bool,
) -> Option<Seq<Map<NetId, usize>>> {
    let lanes = preserved_lanes(current, parts, refined_on);
    if refined_on && lanes != global_lanes(current, parts, refined_on) && saturating_total(
        preserved_gains(current, parts),
    ) >= MIN_GLOBAL_GAP_ORDER_GAIN && expected_global(current, parts, global_on, refined_on) != Some(lanes) {
        Some(lanes)
    } else {
        None
    }
}

/// The refined candidate kept: when refined candidates are on, it differs
/// from the preserved-refined lanes, its gains add up to the minimum, and it
/// is neither of the candidates kept before it.
pub open spec fn expected_refined(
    current: Seq<BTreeMap<NetId, usize>>,
    parts: Seq<GapParts>,
    global_on: bool,
    refined_on: bool,
) -> Option<Seq<Map<NetId, usize>>> {
    let lanes = refined_lanes(current, parts, refined_on);
    if refined_on && lanes != preserved_lanes(current, parts, refined_on) && saturating_total(
        refined_gains(current, parts),
    ) >= MIN_GLOBAL_GAP_ORDER_GAIN && expected_global(current, parts, global_on, refined_on) != Some(lanes)
        && expected_preserved(current, parts, global_on, refined_on) != Some(lanes) {
        Some(lanes)
    } else {
        None
    }
}

pub open spec fn lanes_option_view(lanes: Option<Vec<BTreeMap<NetId, usize>>>) -> Option<Seq<Map<NetId, usize>>> {
    match lanes {
        Some(lanes) => Some(lane_views(lanes@)),
        None => None,
    }
}

/// `parts` describes the first `count` gaps.
pub open spec fn gap_parts_hold<F: Fn(NetId, NetId) -> usize>(
    parts: Seq<GapParts>,
    current: Seq<BTreeMap<NetId, usize>>,
    pair_costs: Seq<F>,
    ranked_hot: Seq<Vec<NetId>>,
    lane_rounds: nat,
    large_global_candidates: bool,
    global_on: bool,
    refined_on: bool,
    count: int,
) -> bool {
    &&& parts.len() == count
    &&& forall|g: int|
        0 <= g < count ==> #[trigger] describes_gap_parts(
            parts[g],
            current[g]@,
            reported_costs(pair_costs[g]),
            ranked_hot[g]@,
            lane_rounds,
            large_global_candidates,
            global_on,
            gap_is_fused(current, refined_on, g),
        )
}

/// `candidates` are what the gap parts in `parts` give.
pub open spec fn candidates_from_parts(
    candidates: GapLaneCandidates,
    current: Seq<BTreeMap<NetId, usize>>,
    parts: Seq<GapParts>,
    global_on: bool,
    refined_on: bool,
) -> bool {
    &&& lane_views(candidates.baseline@) == baseline_lanes(parts)
    &&& lanes_option_view(candidates.global) == expected_global(current, parts, global_on, refined_on)
    &&& lanes_option_view(candidates.preserved_refined) == expected_preserved(current, parts, global_on, refined_on)
    &&& lanes_option_view(candidates.refined) == expected_refined(current, parts, global_on, refined_on)
}

/// The shorter of two lengths.
pub open spec fn shorter(a: int, b: int) -> int {
    if a <= b {
        a
    } else {
        b
    }
}

/// The gap-lane candidates of a layout (see `crossing_aware_gap_lanes`).
pub open spec fn is_gap_lane_candidates<F: Fn(NetId, NetId) -> usize>(
    candidates: GapLaneCandidates,
    current: Seq<BTreeMap<NetId, usize>>,
    pair_costs: Seq<F>,
    ranked_hot: Seq<Vec<NetId>>,
    lane_rounds: nat,
    large_global_candidates: bool,
    global_on: bool,
    refined_on: bool,
) -> bool {
    let count = shorter(current.len() as int, pair_costs.len() as int);
    exists|parts: Seq<GapParts>|
        #[trigger] gap_parts_hold(
            parts,
            current,
            pair_costs,
            ranked_hot,
            lane_rounds,
            large_global_candidates,
            global_on,
            refined_on,
            count,
        ) && candidates_from_parts(candidates, current, parts, global_on, refined_on)
}

/// The gap-lane candidates of a layout. `pair_costs[g]`, `vertical_counts[g]`
/// and `ranked_hot[g]` describe the accesses of gap `g`: the predicted
/// crossings of one net lying below another, each net's vertical access
/// count, and its nets ranked by hotness.
///
/// Global candidates are on when asked for and within their work budget
/// (`global_gap_candidate_work_within_budget`); refined ones when, on top,
/// large and refined candidates are asked for and within their own budget.
/// Every gap (as many as there are lane maps and access descriptions both)
/// gets its local lanes, refined large-gap candidates when refined candidates
/// are on and it has more than `MAX_GLOBAL_GAP_LANES` nets, and otherwise,
/// with global candidates on, its global candidate. The baseline is the local
/// lanes; each candidate is kept only when it changes something, its summed
/// gain reaches `MIN_GLOBAL_GAP_ORDER_GAIN`, and it repeats no candidate kept
/// before it (see `expected_global`, `expected_preserved`, `expected_refined`).
pub fn crossing_aware_gap_lanes<F: Fn(NetId, NetId) -> usize + Copy>(
    current_lanes: &[BTreeMap<NetId, usize>],
    pair_costs: &[F],
    vertical_counts: &[BTreeMap<NetId, usize>],
    ranked_hot: &[Vec<NetId>],
    lane_rounds: usize,
    global_candidates: bool,
    large_global_candidates: bool,
    refined_large_global_candidates: bool,
) -> (candidates: GapLaneCandidates)
    requires
        pair_costs@.len() == vertical_counts@.len(),
        ranked_hot@.len() == vertical_counts@.len(),
        forall|g: int| 0 <= g < pair_costs@.len() ==> is_pair_cost(#[trigger] pair_costs@[g]),
    ensures
        ({
            let global_on = global_candidates && global_work_fits(
                current_lanes@,
                vertical_counts@,
                ranked_hot@,
                large_global_candidates,
            );
            let refined_on = global_on && large_global_candidates && refined_large_global_candidates
                && refined_work_fits(current_lanes@, vertical_counts@, ranked_hot@);
            is_gap_lane_candidates(
                candidates,
                current_lanes@,
                pair_costs@,
                ranked_hot@,
                lane_rounds as nat,
                large_global_candidates,
                global_on,
                refined_on,
            )
        }),
{
    let gaps = if current_lanes.len() <= pair_costs.len() {
        current_lanes.len()
    } else {
        pair_costs.len()
    };
    let global_on = global_candidates && global_gap_candidate_work_within_budget(
        current_lanes,
        vertical_counts,
        ranked_hot,
        large_global_candidates,
    );
    let refined_on = global_on && large_global_candidates && refined_large_global_candidates
        && refined_large_gap_candidate_work_within_budget(current_lanes, vertical_counts, ranked_hot);
    let ghost current = current_lanes@;
    let ghost rounds = lane_rounds as nat;
    let mut baseline: Vec<BTreeMap<NetId, usize>> = Vec::new();
    let mut global: Vec<BTreeMap<NetId, usize>> = Vec::new();
    let mut preserved: Vec<BTreeMap<NetId, usize>> = Vec::new();
    let mut refined: Vec<BTreeMap<NetId, usize>> = Vec::new();
    let mut changed = false;
    let mut global_gain: usize = 0;
    let mut preserved_gain: usize = 0;
    let mut refined_gain: usize = 0;
    let ghost mut parts: Seq<GapParts> = Seq::empty();
    let mut g: usize = 0;
    while g < gaps
        invariant
            g <= gaps,
            gaps <= current_lanes@.len(),
            gaps <= pair_costs@.len(),
            pair_costs@.len() == vertical_counts@.len(),
            ranked_hot@.len() == vertical_counts@.len(),
            current == current_lanes@,
            rounds == lane_rounds as nat,
            forall|h: int| 0 <= h < pair_costs@.len() ==> is_pair_cost(#[trigger] pair_costs@[h]),
            gap_parts_hold(
                parts,
                current,
                pair_costs@,
                ranked_hot@,
                rounds,
                large_global_candidates,
                global_on,
                refined_on,
                g as int,
            ),
            baseline@.len() == g,
            global@.len() == g,
            preserved@.len() == g,
            refined@.len() == g,
            lane_views(baseline@) == baseline_lanes(parts),
            lane_views(global@) == global_lanes(current, parts, refined_on),
            lane_views(preserved@) == preserved_lanes(current, parts, refined_on),
            lane_views(refined@) == refined_lanes(current, parts, refined_on),
            changed == any_global_choice(current, parts, refined_on),
            global_gain == saturating_total(global_gains(current, parts, refined_on)),
            preserved_gain == saturating_total(preserved_gains(current, parts)),
            refined_gain == saturating_total(refined_gains(current, parts)),
        decreases gaps - g,
    {
        let pair_cost = pair_costs[g];
        let lanes = &current_lanes[g];
        let hot = ranked_hot[g].as_slice();
        let local = crossing_aware_gap_lane_indices_with_rounds(lanes, pair_cost, lane_rounds);
        let big = lanes.len() > MAX_GLOBAL_GAP_LANES;
        let fused = refined_on && big;
        let fused_candidates = if fused {
            refined_large_gap_hot_insertion_orders(&local, hot, &pair_cost)
        } else {
            GapLaneOrderCandidates { global: None, preserved_refined: None, refined: None }
        };
        let own = if global_on && !fused {
            global_gap_lane_indices_with_rounds(lanes, pair_cost, lane_rounds, &local, large_global_candidates, hot)
        } else {
            None
        };
        let ghost part: GapParts = (local, fused_candidates, own);
        let ghost before = parts;
        proof {
            parts = parts.push(part);
            assert forall|h: int| 0 <= h < g + 1 implies #[trigger] describes_gap_parts(
                parts[h],
                current[h]@,
                reported_costs(pair_costs@[h]),
                ranked_hot@[h]@,
                rounds,
                large_global_candidates,
                global_on,
                gap_is_fused(current, refined_on, h),
            ) by {
                if h < g {
                    assert(parts[h] == before[h]);
                }
            }
        }
        let GapLaneOrderCandidates { global: fused_global, preserved_refined: fused_preserved, refined: fused_refined } =
            fused_candidates;
        let choice = if fused {
            fused_global
        } else {
            own
        };
        let global_lane = match choice {
            Some((candidate, gain)) => {
                changed = true;
                global_gain = global_gain.saturating_add(gain);
                candidate
            },
            None => local.clone(),
        };
        let preserved_lane = if big {
            match fused_preserved {
                Some((candidate, gain)) => {
                    preserved_gain = preserved_gain.saturating_add(gain);
                    candidate
                },
                None => local.clone(),
            }
        } else {
            global_lane.clone()
        };
        let refined_lane = if big {
            match fused_refined {
                Some((candidate, gain)) => {
                    refined_gain = refined_gain.saturating_add(gain);
                    candidate
                },
                None => local.clone(),
            }
        } else {
            preserved_lane.clone()
        };
        let ghost old_baseline = baseline@;
        let ghost old_global = global@;
        let ghost old_preserved = preserved@;
        let ghost old_refined = refined@;
        global.push(global_lane);
        preserved.push(preserved_lane);
        refined.push(refined_lane);
        baseline.push(local);
        proof {
            let fused_g = gap_is_fused(current, refined_on, g as int);
            assert(fused_g == fused);
            assert(gap_is_big(current, g as int) == big);
            assert forall|h: int| 0 <= h < g + 1 implies #[trigger] lane_views(baseline@)[h] == baseline_lanes(parts)[h] by {
                if h < g {
                    assert(baseline@[h] == old_baseline[h]);
                    assert(lane_views(old_baseline)[h] == baseline_lanes(before)[h]);
                    assert(parts[h] == before[h]);
                }
            }
            assert(lane_views(baseline@) =~= baseline_lanes(parts));
            assert forall|h: int| 0 <= h < g + 1 implies #[trigger] lane_views(global@)[h] == global_lanes(current, parts, refined_on)[h] by {
                if h < g {
                    assert(global@[h] == old_global[h]);
                    assert(lane_views(old_global)[h] == global_lanes(current, before, refined_on)[h]);
                    assert(parts[h] == before[h]);
                }
            }
            assert(lane_views(global@) =~= global_lanes(current, parts, refined_on));
            assert forall|h: int| 0 <= h < g + 1 implies #[trigger] lane_views(preserved@)[h] == preserved_lanes(current, parts, refined_on)[h] by {
                if h < g {
                    assert(preserved@[h] == old_preserved[h]);
                    assert(lane_views(old_preserved)[h] == preserved_lanes(current, before, refined_on)[h]);
                    assert(global_lanes(current, before, refined_on)[h] == global_lanes(current, parts, refined_on)[h]);
                    assert(parts[h] == before[h]);
                } else {
                    assert(global_lanes(current, parts, refined_on)[h] == lane_views(global@)[h]);
                }
            }
            assert(lane_views(preserved@) =~= preserved_lanes(current, parts, refined_on));
            assert forall|h: int| 0 <= h < g + 1 implies #[trigger] lane_views(refined@)[h] == refined_lanes(current, parts, refined_on)[h] by {
                if h < g {
                    assert(refined@[h] == old_refined[h]);
                    assert(lane_views(old_refined)[h] == refined_lanes(current, before, refined_on)[h]);
                    assert(preserved_lanes(current, before, refined_on)[h] == preserved_lanes(current, parts, refined_on)[h]);
                    assert(parts[h] == before[h]);
                } else {
                    assert(preserved_lanes(current, parts, refined_on)[h] == lane_views(preserved@)[h]);
                }
            }
            assert(lane_views(refined@) =~= refined_lanes(current, parts, refined_on));
            assert(global_gains(current, parts, refined_on).drop_last() =~= global_gains(current, before, refined_on));
            assert(preserved_gains(current, parts).drop_last() =~= preserved_gains(current, before));
            assert(refined_gains(current, parts).drop_last() =~= refined_gains(current, before));
            if any_global_choice(current, before, refined_on) {
                let h = choose|h: int| 0 <= h < before.len() && (#[trigger] global_choice(
                    before[h],
                    gap_is_fused(current, refined_on, h),
                )) is Some;
                assert(parts[h] == before[h]);
            }
            if choice is Some {
                assert(global_choice(parts[g as int], gap_is_fused(current, refined_on, g as int)) is Some);
            }
            if any_global_choice(current, parts, refined_on) {
                let h = choose|h: int| 0 <= h < parts.len() && (#[trigger] global_choice(
                    parts[h],
                    gap_is_fused(current, refined_on, h),
                )) is Some;
                if h < g {
                    assert(parts[h] == before[h]);
                }
            }
        }
        g = g + 1;
    }
    let preserved_differs = !same_lane_vectors(&preserved, &global);
    let refined_differs = !same_lane_vectors(&refined, &preserved);
    let global_is_refined = same_lane_vectors(&global, &refined);
    let keep_global = global_on && changed && global_gain >= MIN_GLOBAL_GAP_ORDER_GAIN;
    let keep_preserved = refined_on && preserved_differs && preserved_gain >= MIN_GLOBAL_GAP_ORDER_GAIN && !(keep_global
        && !preserved_differs);
    let keep_refined = refined_on && refined_differs && refined_gain >= MIN_GLOBAL_GAP_ORDER_GAIN && !(keep_global
        && global_is_refined) && !(keep_preserved && !refined_differs);
    let candidates = GapLaneCandidates {
        baseline,
        global: if keep_global {
            Some(global)
        } else {
            None
        },
        preserved_refined: if keep_preserved {
            Some(preserved)
        } else {
            None
        },
        refined: if keep_refined {
            Some(refined)
        } else {
            None
        },
    };
    proof {
        assert(gaps == shorter(current_lanes@.len() as int, pair_costs@.len() as int));
        assert(gap_parts_hold(
            parts,
            current,
            pair_costs@,
            ranked_hot@,
            rounds,
            large_global_candidates,
            global_on,
            refined_on,
            gaps as int,
        ));
        assert(candidates_from_parts(candidates, current, parts, global_on, refined_on));
    }
    candidates
}

/// Each gap of `lanes` numbers exactly the nets of the same gap of `current`
/// with lanes `0 .. n`.
pub open spec fn gaps_are_permutations(lanes: Seq<Map<NetId, usize>>, current: Seq<BTreeMap<NetId, usize>>) -> bool {
    &&& lanes.len() <= current.len()
    &&& forall|g: int| 0 <= g < lanes.len() ==> is_lane_permutation(#[trigger] lanes[g]) && lanes[g].dom() == current[g]@.dom()
}

/// A candidate, when kept, numbers the nets of every gap with lanes `0 .. n`.
pub open spec fn kept_gaps_are_permutations(
    candidate: Option<Vec<BTreeMap<NetId, usize>>>,
    current: Seq<BTreeMap<NetId, usize>>,
) -> bool {
    match candidate {
        Some(lanes) => gaps_are_permutations(lane_views(lanes@), current),
        None => true,
    }
}

proof fn lemma_gap_parts_are_permutations(
    parts: GapParts,
    current: BTreeMap<NetId, usize>,
    cost: spec_fn(NetId, NetId) -> nat,
    ranked_hot: Seq<NetId>,
    lane_rounds: nat,
    large_global_candidates: bool,
    global_on: bool,
    fused: bool,
)
    requires
        describes_gap_parts(parts, current@, cost, ranked_hot, lane_rounds, large_global_candidates, global_on, fused),
    ensures
        is_lane_permutation(parts.0@),
        parts.0@.dom() == current@.dom(),
        candidate_is_permutation(parts.1.global, current@.dom()),
        candidate_is_permutation(parts.1.preserved_refined, current@.dom()),
        candidate_is_permutation(parts.1.refined, current@.dom()),
        candidate_is_permutation(parts.2, current@.dom()),
{
    lemma_ids_ordered();
    assert(vstd::std_specs::btree::spec_btree_map_len(&current) == current@.len());
    let seed = choose|seed: Seq<NetId>|
        sorted_by_lane(seed, current@) && parts.0@ == lanes_of_order(refined_order(seed, lane_rounds, cost));
    lemma_sorted_by_lane_lists_nets(seed, current@);
    lemma_refined_lanes_are_permutation(seed, lane_rounds, cost);
    assert(parts.0@.dom() =~= current@.dom());
    if fused && is_large_gap(parts.0@) {
        lemma_refined_candidates_are_permutations(
            parts.1,
            parts.0@,
            hot_prefix(ranked_hot, MAX_REFINED_LARGE_GLOBAL_GAP_HOT_NETS),
            cost,
        );
    }
    if global_on && !fused && current@.len() > MAX_GLOBAL_GAP_LANES && large_global_candidates {
        lemma_hot_order_is_permutation(parts.2, parts.0@, hot_prefix(ranked_hot, MAX_LARGE_GLOBAL_GAP_HOT_NETS), cost);
    }
    if global_on && !fused && current@.len() <= MAX_GLOBAL_GAP_LANES {
        lemma_global_candidate_is_permutation(parts.2, current@, parts.0@, cost, lane_rounds);
    }
}

/// Every gap of the baseline, and of every candidate kept, numbers exactly
/// the nets of that gap with lanes `0 .. n`, each lane once.
pub proof fn lemma_gap_lane_candidates_are_permutations<F: Fn(NetId, NetId) -> usize>(
    candidates: GapLaneCandidates,
    current: Seq<BTreeMap<NetId, usize>>,
    pair_costs: Seq<F>,
    ranked_hot: Seq<Vec<NetId>>,
    lane_rounds: nat,
    large_global_candidates: bool,
    global_on: bool,
    refined_on: bool,
)
    requires
        is_gap_lane_candidates(
            candidates,
            current,
            pair_costs,
            ranked_hot,
            lane_rounds,
            large_global_candidates,
            global_on,
            refined_on,
        ),
    ensures
        gaps_are_permutations(lane_views(candidates.baseline@), current),
        kept_gaps_are_permutations(candidates.global, current),
        kept_gaps_are_permutations(candidates.preserved_refined, current),
        kept_gaps_are_permutations(candidates.refined, current),
{
    let count = shorter(current.len() as int, pair_costs.len() as int);
    let parts = choose|parts: Seq<GapParts>|
        #[trigger] gap_parts_hold(
            parts,
            current,
            pair_costs,
            ranked_hot,
            lane_rounds,
            large_global_candidates,
            global_on,
            refined_on,
            count,
        ) && candidates_from_parts(candidates, current, parts, global_on, refined_on);
    assert forall|g: int| 0 <= g < count implies {
        &&& is_lane_permutation(parts[g].0@) && parts[g].0@.dom() == current[g]@.dom()
        &&& candidate_is_permutation(parts[g].1.global, current[g]@.dom())
        &&& candidate_is_permutation(parts[g].1.preserved_refined, current[g]@.dom())
        &&& candidate_is_permutation(parts[g].1.refined, current[g]@.dom())
        &&& candidate_is_permutation(parts[g].2, current[g]@.dom())
    } by {
        assert(describes_gap_parts(
            parts[g],
            current[g]@,
            reported_costs(pair_costs[g]),
            ranked_hot[g]@,
            lane_rounds,
            large_global_candidates,
            global_on,
            gap_is_fused(current, refined_on, g),
        ));
        lemma_gap_parts_are_permutations(
            parts[g],
            current[g],
            reported_costs(pair_costs[g]),
            ranked_hot[g]@,
            lane_rounds,
            large_global_candidates,
            global_on,
            gap_is_fused(current, refined_on, g),
        );
    }
    let global = global_lanes(current, parts, refined_on);
    let preserved = preserved_lanes(current, parts, refined_on);
    let refined = refined_lanes(current, parts, refined_on);
    assert(gaps_are_permutations(baseline_lanes(parts), current));
    assert(gaps_are_permutations(global, current));
    assert(gaps_are_permutations(preserved, current)) by {
        assert forall|g: int| 0 <= g < preserved.len() implies is_lane_permutation(#[trigger] preserved[g])
            && preserved[g].dom() == current[g]@.dom() by {
            assert(is_lane_permutation(global[g]));
        }
    }
    assert(gaps_are_permutations(refined, current)) by {
        assert forall|g: int| 0 <= g < refined.len() implies is_lane_permutation(#[trigger] refined[g])
            && refined[g].dom() == current[g]@.dom() by {
            assert(is_lane_permutation(preserved[g]));
        }
    }
}

} // verus!
