//! Global reseeding of a gap's lane order from a weighted tournament of the
//! pairwise crossing costs.
use vstd::prelude::*;
use std::collections::BTreeMap;
use crate::budget::{MAX_GLOBAL_GAP_LANES, MAX_LARGE_GLOBAL_GAP_HOT_NETS};
use crate::gap_order::{
    gap_lane_order_cost, is_pair_cost, lane_sorted_nets, lanes_from_order, lanes_of_order,
    lemma_refined_order_keeps_nets, lemma_reported_cost, order_cost, refine_gap_lane_order, refined_order,
    reported_costs, sorted_by_lane,
};
use crate::hot_insertion::{
    describes_insertion_rounds, hot_prefix, insertion_rounds, is_large_gap, large_gap_hot_insertion_orders_with_rounds,
    lemma_hot_pass_is_permutation,
};
use crate::lane_moves::{candidate_is_permutation, lemma_refined_lanes_are_permutation};
use crate::gap_order::{describes_lane_order, orders_baseline};
use crate::graph::NetId;
use crate::lanes::{first_position, lemma_first_position_bounds};
use crate::ordered::{sort_triples, triple_before};

verus! {

broadcast use vstd::std_specs::btree::group_btree_axioms;

/// A cost as a signed score term: `i64::MAX` when it does not fit.
pub open spec fn signed_cost(cost: nat) -> int {
    if cost <= i64::MAX {
        cost as int
    } else {
        i64::MAX as int
    }
}

/// `value` clamped to the range of `i64`.
pub open spec fn saturate_i64(value: int) -> i64 {
    if value > i64::MAX {
        i64::MAX
    } else if value < i64::MIN {
        i64::MIN
    } else {
        value as i64
    }
}

/// Tournament balance of `a` lying before `b`: its cost there minus the
/// cost of the reverse, saturating.
pub open spec fn pair_balance(cost: spec_fn(NetId, NetId) -> nat, a: NetId, b: NetId) -> i64 {
    saturate_i64(signed_cost(cost(a, b)) - signed_cost(cost(b, a)))
}

/// Scores after the pairs `(i, j), (i, j + 1), ..` of row `i`: each pair adds
/// its balance to the earlier net and takes it from the later one.
pub open spec fn row_scores(
    seed: Seq<NetId>,
    cost: spec_fn(NetId, NetId) -> nat,
    scores: Seq<i64>,
    i: int,
    j: int,
) -> Seq<i64>
    decreases seed.len() - j,
{
    if j < 0 || j >= seed.len() {
        scores
    } else {
        let balance = pair_balance(cost, seed[i], seed[j]);
        row_scores(
            seed,
            cost,
            scores.update(i, saturate_i64(scores[i] + balance)).update(j, saturate_i64(scores[j] - balance)),
            i,
            j + 1,
        )
    }
}

/// Scores after every pair of rows `i ..`, row by row.
pub open spec fn tournament_scores(
    seed: Seq<NetId>,
    cost: spec_fn(NetId, NetId) -> nat,
    scores: Seq<i64>,
    i: int,
) -> Seq<i64>
    decreases seed.len() - i,
{
    if i < 0 || i >= seed.len() {
        scores
    } else {
        tournament_scores(seed, cost, row_scores(seed, cost, scores, i, i + 1), i + 1)
    }
}

/// The tournament score of each position of `seed`, starting from zero.
pub open spec fn seed_scores(seed: Seq<NetId>, cost: spec_fn(NetId, NetId) -> nat) -> Seq<i64> {
    tournament_scores(seed, cost, Seq::new(seed.len(), |k: int| 0i64), 0)
}

/// `global` lists the nets of `seed` by increasing (score, lane, net), where
/// a net's score is the one at its position in `seed`.
pub open spec fn orders_by_score(
    global: Seq<NetId>,
    seed: Seq<NetId>,
    scores: Seq<i64>,
    lanes: Map<NetId, usize>,
) -> bool {
    &&& global.len() == seed.len()
    &&& forall|net: NetId| #[trigger] global.contains(net) <==> seed.contains(net)
    &&& forall|i: int, j: int|
        0 <= i < j < global.len() ==> triple_before(
            (scores[first_position(seed, #[trigger] global[i]) as int], lanes[global[i]], global[i]),
            (scores[first_position(seed, #[trigger] global[j]) as int], lanes[global[j]], global[j]),
        )
}

/// `order` is the global order of a gap with lanes `current`: its nets by
/// increasing tournament score, current lane and net, the tournament played in
/// the current lane order.
pub open spec fn is_global_order(
    order: Seq<NetId>,
    current: Map<NetId, usize>,
    cost: spec_fn(NetId, NetId) -> nat,
) -> bool {
    exists|seed: Seq<NetId>|
        sorted_by_lane(seed, current) && #[trigger] orders_by_score(order, seed, seed_scores(seed, cost), current)
}

fn signed_cost_of(cost: usize) -> (signed: i64)
    ensures
        signed == signed_cost(cost as nat),
{
    if (cost as u64) <= (i64::MAX as u64) {
        cost as i64
    } else {
        i64::MAX
    }
}

fn saturating_add_i64(a: i64, b: i64) -> (sum: i64)
    ensures
        sum == saturate_i64(a + b),
{
    let wide: i128 = a as i128 + b as i128;
    if wide > i64::MAX as i128 {
        i64::MAX
    } else if wide < i64::MIN as i128 {
        i64::MIN
    } else {
        wide as i64
    }
}

fn saturating_sub_i64(a: i64, b: i64) -> (difference: i64)
    ensures
        difference == saturate_i64(a - b),
{
    let wide: i128 = a as i128 - b as i128;
    if wide > i64::MAX as i128 {
        i64::MAX
    } else if wide < i64::MIN as i128 {
        i64::MIN
    } else {
        wide as i64
    }
}

/// The tournament scores of the positions of `seed`.
fn tournament_scores_of<F: Fn(NetId, NetId) -> usize>(seed: &Vec<NetId>, pair_cost: &F) -> (scores: Vec<i64>)
    requires
        is_pair_cost(*pair_cost),
    ensures
        scores@ == seed_scores(seed@, reported_costs(*pair_cost)),
        scores@.len() == seed@.len(),
{
    let ghost cost = reported_costs(*pair_cost);
    proof {
        lemma_reported_cost(*pair_cost);
    }
    let n = seed.len();
    let mut scores: Vec<i64> = Vec::new();
    let mut k: usize = 0;
    while k < n
        invariant
            k <= n,
            n == seed@.len(),
            scores@ == Seq::new(k as nat, |t: int| 0i64),
        decreases n - k,
    {
        scores.push(0);
        k = k + 1;
        assert(scores@ =~= Seq::new(k as nat, |t: int| 0i64));
    }
    let mut i: usize = 0;
    while i < n
        invariant
            i <= n,
            n == seed@.len(),
            scores@.len() == n,
            is_pair_cost(*pair_cost),
            forall|a: NetId, b: NetId, r: usize| pair_cost.ensures((a, b), r) ==> r == cost(a, b),
            seed_scores(seed@, cost) == tournament_scores(seed@, cost, scores@, i as int),
        decreases n - i,
    {
        let mut j: usize = i + 1;
        while j < n
            invariant
                i < n,
                i + 1 <= j <= n,
                n == seed@.len(),
                scores@.len() == n,
                is_pair_cost(*pair_cost),
                forall|a: NetId, b: NetId, r: usize| pair_cost.ensures((a, b), r) ==> r == cost(a, b),
                seed_scores(seed@, cost) == tournament_scores(
                    seed@,
                    cost,
                    row_scores(seed@, cost, scores@, i as int, j as int),
                    i + 1,
                ),
            decreases n - j,
        {
            let left = seed[i];
            let right = seed[j];
            let left_before_right = pair_cost(left, right);
            let right_before_left = pair_cost(right, left);
            let balance = saturating_sub_i64(signed_cost_of(left_before_right), signed_cost_of(right_before_left));
            assert(balance == pair_balance(cost, seed@[i as int], seed@[j as int]));
            let left_score = saturating_add_i64(scores[i], balance);
            scores.set(i, left_score);
            let right_score = saturating_sub_i64(scores[j], balance);
            scores.set(j, right_score);
            j = j + 1;
        }
        i = i + 1;
    }
    scores
}

/// A global lane order for a small gap: `None` unless the gap has from 2 to
/// `MAX_GLOBAL_GAP_LANES` nets. Starting from the current lane order (ties by
/// net), every pair of nets plays one weighted match, in which the earlier net
/// gains its cost of lying first minus the cost of the reverse and the later
/// net loses as much (both saturating in `i64`); the nets are then ordered by
/// score, then current lane, then net.
pub fn global_gap_order_seed<F: Fn(NetId, NetId) -> usize>(current: &BTreeMap<NetId, usize>, pair_cost: F) -> (global:
    Option<Vec<NetId>>)
    requires
        is_pair_cost(pair_cost),
    ensures
        global is None <==> !(2 <= current@.len() <= MAX_GLOBAL_GAP_LANES),
        global matches Some(order) ==> is_global_order(order@, current@, reported_costs(pair_cost)),
{
    let seed = lane_sorted_nets(current);
    proof {
        seed@.unique_seq_to_set();
        assert(seed@.to_set() =~= current@.dom());
    }
    if seed.len() < 2 || seed.len() > MAX_GLOBAL_GAP_LANES {
        return None;
    }
    let scores = tournament_scores_of(&seed, &pair_cost);
    let ghost score_seq = scores@;
    let mut keys: Vec<(i64, usize, NetId)> = Vec::new();
    let mut k: usize = 0;
    while k < seed.len()
        invariant
            k <= seed@.len(),
            scores@.len() == seed@.len(),
            sorted_by_lane(seed@, current@),
            keys@.len() == k,
            forall|t: int|
                0 <= t < k ==> #[trigger] keys@[t] == (scores@[t], current@[seed@[t]], seed@[t]),
        decreases seed@.len() - k,
    {
        let net = seed[k];
        assert(current@.contains_key(seed@[k as int]));
        let lane = match current.get(&net) {
            Some(lane) => *lane,
            None => 0,
        };
        keys.push((scores[k], lane, net));
        k = k + 1;
    }
    assert(keys@.no_duplicates()) by {
        assert forall|a: int, b: int| 0 <= a < keys@.len() && 0 <= b < keys@.len() && a != b implies keys@[a]
            != keys@[b] by {
            assert(seed@[a] != seed@[b]);
        }
    }
    let sorted = sort_triples(&keys);
    let mut order: Vec<NetId> = Vec::new();
    let mut position: usize = 0;
    while position < sorted.len()
        invariant
            position <= sorted@.len(),
            order@.len() == position,
            forall|t: int| 0 <= t < position ==> #[trigger] order@[t] == sorted@[t].2,
        decreases sorted@.len() - position,
    {
        order.push(sorted[position].2);
        position = position + 1;
    }
    proof {
        let s = seed@;
        assert forall|t: int| 0 <= t < sorted@.len() implies exists|k: int|
            0 <= k < s.len() && #[trigger] sorted@[t] == keys@[k] by {
            assert(sorted@.contains(sorted@[t]));
        }
        assert forall|t: int| 0 <= t < sorted@.len() implies (#[trigger] sorted@[t]).0 == score_seq[first_position(
            s,
            sorted@[t].2,
        ) as int] && sorted@[t].1 == current@[sorted@[t].2] && s.contains(sorted@[t].2) by {
            let k = choose|k: int| 0 <= k < s.len() && sorted@[t] == keys@[k];
            lemma_first_position_bounds(s, s[k]);
            assert(s.contains(s[k]));
            let p = first_position(s, s[k]) as int;
            assert(s[p] == s[k]);
        }
        assert forall|net: NetId| #[trigger] order@.contains(net) <==> s.contains(net) by {
            if order@.contains(net) {
                let t = choose|t: int| 0 <= t < order@.len() && order@[t] == net;
                assert(sorted@[t].2 == net);
            }
            if s.contains(net) {
                let k = choose|k: int| 0 <= k < s.len() && s[k] == net;
                assert(keys@.contains(keys@[k]));
                assert(sorted@.contains(keys@[k]));
                let t = choose|t: int| 0 <= t < sorted@.len() && sorted@[t] == keys@[k];
                assert(order@[t] == net);
            }
        }
        assert forall|i: int, j: int| 0 <= i < j < order@.len() implies triple_before(
            (score_seq[first_position(s, #[trigger] order@[i]) as int], current@[order@[i]], order@[i]),
            (score_seq[first_position(s, #[trigger] order@[j]) as int], current@[order@[j]], order@[j]),
        ) by {
            assert(triple_before(sorted@[i], sorted@[j]));
        }
        assert(score_seq == seed_scores(s, reported_costs(pair_cost)));
        assert(sorted_by_lane(s, current@));
        assert(orders_by_score(order@, s, seed_scores(s, reported_costs(pair_cost)), current@));
        assert(is_global_order(order@, current@, reported_costs(pair_cost)));
    }
    Some(order)
}

/// `value`, saturating at `usize::MAX`.
pub open spec fn saturated(value: nat) -> nat {
    if value <= usize::MAX {
        value
    } else {
        usize::MAX as nat
    }
}

/// `result` is what one pass of hot-net moves over the baseline order of a
/// large gap gives (`None` for a gap that is not large).
pub open spec fn describes_hot_insertion_order(
    result: Option<(BTreeMap<NetId, usize>, usize)>,
    baseline: Map<NetId, usize>,
    hot: Seq<NetId>,
    cost: spec_fn(NetId, NetId) -> nat,
) -> bool {
    if is_large_gap(baseline) {
        exists|ordered: Seq<(NetId, usize)>|
            orders_baseline(ordered, baseline) && #[trigger] describes_lane_order(
                result,
                insertion_rounds(ordered, hot, cost, 1, 0).0,
                insertion_rounds(ordered, hot, cost, 1, 0).1,
            )
    } else {
        result is None
    }
}

/// `result` is the global candidate of a small gap: `None` unless the gap
/// has at least two nets and the refined global order predicts strictly
/// fewer crossings than the baseline order (both totals saturating); else
/// the refined order's lanes with the saving.
pub open spec fn describes_global_candidate(
    result: Option<(BTreeMap<NetId, usize>, usize)>,
    current: Map<NetId, usize>,
    baseline: Map<NetId, usize>,
    cost: spec_fn(NetId, NetId) -> nat,
    lane_rounds: nat,
) -> bool {
    if current.len() < 2 {
        result is None
    } else {
        exists|global: Seq<NetId>, base: Seq<NetId>|
            #![trigger is_global_order(global, current, cost), sorted_by_lane(base, baseline)]
            is_global_order(global, current, cost) && sorted_by_lane(base, baseline) && {
                let refined = refined_order(global, lane_rounds, cost);
                let global_cost = saturated(order_cost(refined, cost));
                let baseline_cost = saturated(order_cost(base, cost));
                &&& result is None <==> global_cost >= baseline_cost
                &&& result matches Some((lanes, gain)) ==> lanes@ == lanes_of_order(refined) && gain
                    == baseline_cost - global_cost
            }
    }
}

/// The global lane order candidate of a gap. A gap of more than
/// `MAX_GLOBAL_GAP_LANES` nets gets, when `large_global_candidates` is set,
/// one pass of moves of its first `MAX_LARGE_GLOBAL_GAP_HOT_NETS` nets of
/// `ranked_hot` (its nets ranked by hotness) over the baseline order, else `None`.
/// A smaller gap gets its tournament-seeded order refined by `lane_rounds`
/// adjacent-transpose passes, kept only when it beats the baseline order.
pub fn global_gap_lane_indices_with_rounds<F: Fn(NetId, NetId) -> usize + Copy>(
    current: &BTreeMap<NetId, usize>,
    pair_cost: F,
    lane_rounds: usize,
    baseline: &BTreeMap<NetId, usize>,
    large_global_candidates: bool,
    ranked_hot: &[NetId],
) -> (result: Option<(BTreeMap<NetId, usize>, usize)>)
    requires
        is_pair_cost(pair_cost),
    ensures
        current@.len() > MAX_GLOBAL_GAP_LANES && large_global_candidates ==> describes_hot_insertion_order(
            result,
            baseline@,
            hot_prefix(ranked_hot@, MAX_LARGE_GLOBAL_GAP_HOT_NETS),
            reported_costs(pair_cost),
        ),
        current@.len() > MAX_GLOBAL_GAP_LANES && !large_global_candidates ==> result is None,
        current@.len() <= MAX_GLOBAL_GAP_LANES ==> describes_global_candidate(
            result,
            current@,
            baseline@,
            reported_costs(pair_cost),
            lane_rounds as nat,
        ),
{
    let ghost cost = reported_costs(pair_cost);
    if current.len() > MAX_GLOBAL_GAP_LANES {
        if large_global_candidates {
            let candidates = large_gap_hot_insertion_orders_with_rounds(
                baseline,
                ranked_hot,
                MAX_LARGE_GLOBAL_GAP_HOT_NETS,
                &pair_cost,
                1,
                None,
            );
            let ghost hot = hot_prefix(ranked_hot@, MAX_LARGE_GLOBAL_GAP_HOT_NETS);
            proof {
                if is_large_gap(baseline@) {
                    let ordered = choose|ordered: Seq<(NetId, usize)>|
                        orders_baseline(ordered, baseline@) && #[trigger] describes_insertion_rounds(
                            candidates,
                            ordered,
                            hot,
                            cost,
                            1,
                            None,
                        );
                    assert(describes_lane_order(
                        candidates.1,
                        insertion_rounds(ordered, hot, cost, 1, 0).0,
                        insertion_rounds(ordered, hot, cost, 1, 0).1,
                    ));
                }
            }
            return candidates.1;
        } else {
            return None;
        }
    }
    let seeded = global_gap_order_seed(current, pair_cost);
    let mut global = match seeded {
        Some(order) => order,
        None => {
            return None;
        },
    };
    let ghost seed_order = global@;
    refine_gap_lane_order(&mut global, lane_rounds, pair_cost);
    let baseline_order = lane_sorted_nets(baseline);
    let global_cost = gap_lane_order_cost(&global, pair_cost);
    let baseline_cost = gap_lane_order_cost(&baseline_order, pair_cost);
    proof {
        let seed = choose|seed: Seq<NetId>|
            sorted_by_lane(seed, current@) && #[trigger] orders_by_score(seed_order, seed, seed_scores(seed, cost), current@);
        lemma_orders_by_score_no_duplicates(seed_order, seed, seed_scores(seed, cost), current@);
        lemma_refined_order_keeps_nets(seed_order, lane_rounds as nat, cost);
        assert(is_global_order(seed_order, current@, cost));
    }
    if global_cost >= baseline_cost {
        return None;
    }
    let lanes = lanes_from_order(&global);
    Some((lanes, baseline_cost - global_cost))
}

/// An order strictly increasing by (score, lane, net) has no repeats.
proof fn lemma_orders_by_score_no_duplicates(
    global: Seq<NetId>,
    seed: Seq<NetId>,
    scores: Seq<i64>,
    lanes: Map<NetId, usize>,
)
    requires
        orders_by_score(global, seed, scores, lanes),
    ensures
        global.no_duplicates(),
{
    assert forall|i: int, j: int| 0 <= i < global.len() && 0 <= j < global.len() && i != j implies global[i]
        != global[j] by {
        if i < j {
            assert(triple_before(
                (scores[first_position(seed, global[i]) as int], lanes[global[i]], global[i]),
                (scores[first_position(seed, global[j]) as int], lanes[global[j]], global[j]),
            ));
        } else {
            assert(triple_before(
                (scores[first_position(seed, global[j]) as int], lanes[global[j]], global[j]),
                (scores[first_position(seed, global[i]) as int], lanes[global[i]], global[i]),
            ));
        }
    }
}

/// The nets of a gap listed by (lane, net) are its nets, each once.
pub proof fn lemma_sorted_by_lane_lists_nets(seed: Seq<NetId>, lanes: Map<NetId, usize>)
    requires
        sorted_by_lane(seed, lanes),
        lanes.dom().finite(),
    ensures
        seed.no_duplicates(),
        seed.len() == lanes.len(),
        forall|net: NetId| #[trigger] seed.contains(net) <==> lanes.contains_key(net),
{
    assert forall|i: int, j: int| 0 <= i < seed.len() && 0 <= j < seed.len() && i != j implies seed[i] != seed[j] by {
        if i < j {
            assert(crate::ordered::pair_before((lanes[seed[i]], seed[i]), (lanes[seed[j]], seed[j])));
        } else {
            assert(crate::ordered::pair_before((lanes[seed[j]], seed[j]), (lanes[seed[i]], seed[i])));
        }
    }
    assert forall|net: NetId| #[trigger] seed.contains(net) implies lanes.contains_key(net) by {
        let k = choose|k: int| 0 <= k < seed.len() && seed[k] == net;
        assert(lanes.contains_key(seed[k]));
    }
    seed.unique_seq_to_set();
    assert(seed.to_set() =~= lanes.dom());
}

/// The global candidate of a small gap, when there is one, numbers the nets
/// of the gap with lanes `0 .. n`.
pub proof fn lemma_global_candidate_is_permutation(
    result: Option<(BTreeMap<NetId, usize>, usize)>,
    current: Map<NetId, usize>,
    baseline: Map<NetId, usize>,
    cost: spec_fn(NetId, NetId) -> nat,
    lane_rounds: nat,
)
    requires
        describes_global_candidate(result, current, baseline, cost, lane_rounds),
        current.dom().finite(),
        current.len() <= usize::MAX,
    ensures
        candidate_is_permutation(result, current.dom()),
{
    if current.len() >= 2 {
        let (global, base) = choose|global: Seq<NetId>, base: Seq<NetId>|
            #![trigger is_global_order(global, current, cost), sorted_by_lane(base, baseline)]
            is_global_order(global, current, cost) && sorted_by_lane(base, baseline) && {
                let refined = refined_order(global, lane_rounds, cost);
                let global_cost = saturated(order_cost(refined, cost));
                let baseline_cost = saturated(order_cost(base, cost));
                &&& result is None <==> global_cost >= baseline_cost
                &&& result matches Some((lanes, gain)) ==> lanes@ == lanes_of_order(refined) && gain
                    == baseline_cost - global_cost
            };
        let seed = choose|seed: Seq<NetId>|
            sorted_by_lane(seed, current) && #[trigger] orders_by_score(global, seed, seed_scores(seed, cost), current);
        lemma_sorted_by_lane_lists_nets(seed, current);
        let scores = seed_scores(seed, cost);
        assert(global.no_duplicates()) by {
            assert forall|i: int, j: int| 0 <= i < global.len() && 0 <= j < global.len() && i != j implies global[i]
                != global[j] by {
                if i < j {
                    assert(triple_before(
                        (scores[first_position(seed, global[i]) as int], current[global[i]], global[i]),
                        (scores[first_position(seed, global[j]) as int], current[global[j]], global[j]),
                    ));
                } else {
                    assert(triple_before(
                        (scores[first_position(seed, global[j]) as int], current[global[j]], global[j]),
                        (scores[first_position(seed, global[i]) as int], current[global[i]], global[i]),
                    ));
                }
            }
        }
        lemma_refined_lanes_are_permutation(global, lane_rounds, cost);
        if let Some((lanes, gain)) = result {
            assert(lanes@.dom() =~= current.dom()) by {
                assert forall|net: NetId| lanes@.dom().contains(net) <==> current.dom().contains(net) by {
                    assert(lanes_of_order(refined_order(global, lane_rounds, cost)).contains_key(net) <==> global.contains(
                        net,
                    ));
                    assert(global.contains(net) <==> seed.contains(net));
                }
            }
        }
    }
}

/// The hot-net candidate of a large gap, when there is one, numbers the nets
/// of the gap with lanes `0 .. n`.
pub proof fn lemma_hot_order_is_permutation(
    result: Option<(BTreeMap<NetId, usize>, usize)>,
    baseline: Map<NetId, usize>,
    hot: Seq<NetId>,
    cost: spec_fn(NetId, NetId) -> nat,
)
    requires
        describes_hot_insertion_order(result, baseline, hot, cost),
        baseline.len() <= usize::MAX,
    ensures
        candidate_is_permutation(result, baseline.dom()),
{
    if is_large_gap(baseline) {
        let ordered = choose|ordered: Seq<(NetId, usize)>|
            orders_baseline(ordered, baseline) && #[trigger] describes_lane_order(
                result,
                insertion_rounds(ordered, hot, cost, 1, 0).0,
                insertion_rounds(ordered, hot, cost, 1, 0).1,
            );
        lemma_hot_pass_is_permutation(result, ordered, baseline, hot, cost);
    }
}

} // verus!
