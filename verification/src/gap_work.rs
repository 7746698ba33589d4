//! Work gates of the global gap-order candidates: how many net pairs and
//! vertical-access comparisons their searches may charge over all gaps.
use vstd::prelude::*;
use std::collections::BTreeMap;
use crate::budget::{
    large_gap_hot_access_work_from_counts, large_gap_hot_access_work_spec, seq_sum, sum_within_limit,
    MAX_GLOBAL_GAP_ACCESS_WORK, MAX_GLOBAL_GAP_LANES, MAX_GLOBAL_GAP_PAIRS, MAX_LARGE_GLOBAL_GAP_ACCESS_WORK,
    MAX_LARGE_GLOBAL_GAP_HOT_NETS, MAX_LARGE_GLOBAL_GAP_LANES, MAX_LARGE_GLOBAL_GAP_PAIRS,
    MAX_REFINED_LARGE_GLOBAL_GAP_HOT_NETS, MAX_REFINED_LARGE_GLOBAL_GAP_HOT_ROUNDS,
    MAX_REFINED_LARGE_GLOBAL_GAP_LANE_WORK,
};
use crate::graph::NetId;
use crate::hot_insertion::hot_prefix;
use crate::ordered::{lemma_lists_set_unique, lists_map, map_entries, sorted_keys};

verus! {

broadcast use vstd::std_specs::btree::group_btree_axioms;

/// `value`, saturating at `usize::MAX`.
pub open spec fn saturate(value: int) -> nat {
    if value > usize::MAX {
        usize::MAX as nat
    } else if value < 0 {
        0
    } else {
        value as nat
    }
}

/// The vertical accesses of `net` in a gap, zero when it has none.
pub open spec fn vertical_count(counts: Map<NetId, usize>, net: NetId) -> nat {
    if counts.contains_key(net) {
        counts[net] as nat
    } else {
        0
    }
}

/// The vertical accesses of `nets` in a gap, in total.
pub open spec fn verticals_of(counts: Map<NetId, usize>, nets: Seq<NetId>) -> nat
    decreases nets.len(),
{
    if nets.len() == 0 {
        0
    } else {
        verticals_of(counts, nets.drop_last()) + vertical_count(counts, nets.last())
    }
}

/// The work of the hot-net search of one large gap: `None` when a count or
/// the work does not fit in `usize` (see `large_gap_hot_access_work_spec`).
pub open spec fn hot_access_work(
    lanes: Map<NetId, usize>,
    counts: Map<NetId, usize>,
    hot: Seq<NetId>,
) -> Option<nat> {
    let hot_verticals = verticals_of(counts, hot);
    let all_verticals = verticals_of(counts, sorted_keys(lanes.dom()));
    if hot_verticals > usize::MAX || all_verticals > usize::MAX || all_verticals < hot_verticals || lanes.len()
        == 0 {
        None
    } else {
        let work = large_gap_hot_access_work_spec(
            lanes.len(),
            hot.len(),
            hot_verticals,
            (all_verticals - hot_verticals) as nat,
        );
        if work <= usize::MAX {
            Some(work as nat)
        } else {
            None
        }
    }
}

/// Total vertical accesses of `nets[.. k]`, or `None` when it does not fit.
fn checked_verticals(counts: &BTreeMap<NetId, usize>, nets: &Vec<NetId>) -> (total: Option<usize>)
    ensures
        total is Some <==> verticals_of(counts@, nets@) <= usize::MAX,
        total matches Some(t) ==> t == verticals_of(counts@, nets@),
{
    let mut total: usize = 0;
    let mut index: usize = 0;
    while index < nets.len()
        invariant
            index <= nets@.len(),
            total == verticals_of(counts@, nets@.take(index as int)),
        decreases nets@.len() - index,
    {
        assert(nets@.take(index + 1).drop_last() =~= nets@.take(index as int));
        let count = match counts.get(&nets[index]) {
            Some(count) => *count,
            None => 0,
        };
        if count > usize::MAX - total {
            proof {
                lemma_verticals_prefix(counts@, nets@, index + 1);
            }
            return None;
        }
        total = total + count;
        index = index + 1;
    }
    assert(nets@.take(index as int) =~= nets@);
    Some(total)
}

proof fn lemma_verticals_prefix(counts: Map<NetId, usize>, nets: Seq<NetId>, k: int)
    requires
        0 <= k <= nets.len(),
    ensures
        verticals_of(counts, nets.take(k)) <= verticals_of(counts, nets),
    decreases nets.len() - k,
{
    if k < nets.len() {
        lemma_verticals_prefix(counts, nets, k + 1);
        assert(nets.take(k + 1).drop_last() =~= nets.take(k));
    }
    if k == nets.len() {
        assert(nets.take(k) =~= nets);
    }
}

/// The nets of a lane map in increasing order.
fn lane_keys(lanes: &BTreeMap<NetId, usize>) -> (keys: Vec<NetId>)
    ensures
        keys@ == sorted_keys(lanes@.dom()),
{
    let entries = map_entries(lanes);
    let mut keys: Vec<NetId> = Vec::new();
    let mut index: usize = 0;
    while index < entries.len()
        invariant
            index <= entries@.len(),
            lists_map(entries@, lanes@),
            keys@.len() == index,
            forall|t: int| 0 <= t < index ==> #[trigger] keys@[t] == entries@[t].0,
        decreases entries@.len() - index,
    {
        keys.push(entries[index].0);
        index = index + 1;
    }
    proof {
        assert forall|i: int, j: int| 0 <= i < j < keys@.len() implies keys@[i] < keys@[j] by {
            assert(entries@[i].0 < entries@[j].0);
        }
        assert forall|i: int| 0 <= i < keys@.len() implies #[trigger] lanes@.dom().contains(keys@[i]) by {
            assert(lanes@.contains_key(entries@[i].0));
        }
        assert forall|key: NetId| #[trigger] lanes@.dom().contains(key) implies exists|i: int|
            0 <= i < keys@.len() && keys@[i] == key by {
            let i = choose|i: int| 0 <= i < entries@.len() && entries@[i].0 == key;
            assert(keys@[i] == key);
        }
        let chosen = sorted_keys(lanes@.dom());
        assert(crate::ordered::lists_set(keys@, lanes@.dom()));
        lemma_lists_set_unique(keys@, chosen, lanes@.dom());
    }
    keys
}

/// The vertical-access work of the hot-net search of one large gap, whose
/// hot nets are the first `hot_limit` of `ranked_hot` (its nets ranked by
/// hotness); `None` when a count or the work does not fit in `usize`.
pub fn large_gap_hot_access_work_with_limit(
    lanes: &BTreeMap<NetId, usize>,
    vertical_counts: &BTreeMap<NetId, usize>,
    ranked_hot: &[NetId],
    hot_limit: usize,
) -> (work: Option<usize>)
    ensures
        work is Some <==> hot_access_work(lanes@, vertical_counts@, hot_prefix(ranked_hot@, hot_limit)) is Some,
        work matches Some(w) ==> hot_access_work(lanes@, vertical_counts@, hot_prefix(ranked_hot@, hot_limit))
            == Some(w as nat),
{
    let count = if hot_limit < ranked_hot.len() {
        hot_limit
    } else {
        ranked_hot.len()
    };
    let mut hot: Vec<NetId> = Vec::new();
    let mut index: usize = 0;
    while index < count
        invariant
            index <= count,
            count <= ranked_hot@.len(),
            hot@ == ranked_hot@.take(index as int),
        decreases count - index,
    {
        hot.push(ranked_hot[index]);
        index = index + 1;
        assert(hot@ =~= ranked_hot@.take(index as int));
    }
    assert(hot@ =~= hot_prefix(ranked_hot@, hot_limit));
    let hot_verticals = match checked_verticals(vertical_counts, &hot) {
        Some(total) => total,
        None => {
            return None;
        },
    };
    let keys = lane_keys(lanes);
    let all_verticals = match checked_verticals(vertical_counts, &keys) {
        Some(total) => total,
        None => {
            return None;
        },
    };
    if all_verticals < hot_verticals {
        return None;
    }
    large_gap_hot_access_work_from_counts(lanes.len(), hot.len(), hot_verticals, all_verticals - hot_verticals)
}

/// Largest gap admitted to the global candidates.
pub open spec fn global_max_lanes(large_global_candidates: bool) -> nat {
    if large_global_candidates {
        MAX_LARGE_GLOBAL_GAP_LANES as nat
    } else {
        MAX_GLOBAL_GAP_LANES as nat
    }
}

/// Pairs charged for one gap of `lane_count` nets: every pair of a small gap,
/// or every hot net against every net in both directions for a large one.
pub open spec fn global_pair_work(lane_count: nat) -> nat {
    if lane_count <= MAX_GLOBAL_GAP_LANES {
        (lane_count * (lane_count - 1) / 2) as nat
    } else {
        let hot = if MAX_LARGE_GLOBAL_GAP_HOT_NETS < lane_count {
            MAX_LARGE_GLOBAL_GAP_HOT_NETS as nat
        } else {
            lane_count
        };
        saturate((lane_count * hot * 2) as int)
    }
}

/// Vertical-access comparisons charged for one small gap: each vertical
/// access against both sides of every other lane (saturating).
pub open spec fn small_gap_access_work(lane_count: nat, counts: Map<NetId, usize>) -> nat {
    saturate((saturate((lane_count - 1) * 2) * verticals_of(counts, sorted_keys(counts.dom()))) as int)
}

/// Vertical-access comparisons charged for one gap of the global candidates.
pub open spec fn global_access_work(lanes: Map<NetId, usize>, counts: Map<NetId, usize>, ranked_hot: Seq<NetId>) -> nat {
    if lanes.len() <= MAX_GLOBAL_GAP_LANES {
        small_gap_access_work(lanes.len(), counts)
    } else {
        match hot_access_work(lanes, counts, hot_prefix(ranked_hot, MAX_LARGE_GLOBAL_GAP_HOT_NETS)) {
            Some(work) => work,
            None => usize::MAX as nat,
        }
    }
}

/// The pair and access work of the eligible gaps among the first `k`: those
/// with at least two and at most `global_max_lanes` nets.
pub open spec fn global_gap_terms(
    lanes: Seq<Map<NetId, usize>>,
    counts: Seq<Map<NetId, usize>>,
    ranked_hot: Seq<Seq<NetId>>,
    large_global_candidates: bool,
    k: int,
) -> (Seq<usize>, Seq<usize>)
    decreases k,
{
    if k <= 0 {
        (Seq::empty(), Seq::empty())
    } else {
        let before = global_gap_terms(lanes, counts, ranked_hot, large_global_candidates, k - 1);
        let gap = lanes[k - 1];
        if 2 <= gap.len() <= global_max_lanes(large_global_candidates) {
            (
                before.0.push(global_pair_work(gap.len()) as usize),
                before.1.push(global_access_work(gap, counts[k - 1], ranked_hot[k - 1]) as usize),
            )
        } else {
            before
        }
    }
}

/// Small-gap access work, from the gap's vertical counts.
fn small_gap_access_work_of(lane_count: usize, counts: &BTreeMap<NetId, usize>) -> (work: usize)
    requires
        lane_count >= 1,
    ensures
        work == small_gap_access_work(lane_count as nat, counts@),
{
    let per_access = match (lane_count - 1).checked_mul(2) {
        Some(value) => value,
        None => usize::MAX,
    };
    let keys = lane_keys(counts);
    let ghost all = verticals_of(counts@, keys@);
    let ghost per = per_access as int;
    assert(per_access == saturate((lane_count - 1) * 2)) by {
        if (lane_count - 1) * 2 <= usize::MAX {
            assert(per_access == (lane_count - 1) * 2);
        }
    }
    assert(keys@.take(0) =~= Seq::<NetId>::empty());
    assert(per * 0 == 0) by (nonlinear_arith);
    let mut total: usize = 0;
    let mut index: usize = 0;
    while index < keys.len()
        invariant
            index <= keys@.len(),
            per == per_access as int,
            per_access == saturate((lane_count - 1) * 2),
            total == per * verticals_of(counts@, keys@.take(index as int)),
            all == verticals_of(counts@, keys@),
            keys@ == sorted_keys(counts@.dom()),
        decreases keys@.len() - index,
    {
        assert(keys@.take(index + 1).drop_last() =~= keys@.take(index as int));
        let ghost before = verticals_of(counts@, keys@.take(index as int)) as int;
        let count = match counts.get(&keys[index]) {
            Some(count) => *count,
            None => 0,
        };
        proof {
            lemma_verticals_prefix(counts@, keys@, index + 1);
            assert(per * (before + count) == per * before + per * count) by (nonlinear_arith);
            assert(per * (before + count) <= per * all) by (nonlinear_arith)
                requires
                    before + count <= all,
                    per >= 0,
            ;
            assert(per * count == count * per) by (nonlinear_arith);
        }
        let work = match count.checked_mul(per_access) {
            Some(work) => work,
            None => {
                return usize::MAX;
            },
        };
        if work > usize::MAX - total {
            return usize::MAX;
        }
        total = total + work;
        index = index + 1;
    }
    assert(keys@.take(index as int) =~= keys@);
    total
}

/// The global gap-order candidates fit their work budgets (see
/// `global_gap_candidate_work_within_budget`).
pub open spec fn global_work_fits(
    current_lanes: Seq<BTreeMap<NetId, usize>>,
    vertical_counts: Seq<BTreeMap<NetId, usize>>,
    ranked_hot: Seq<Vec<NetId>>,
    large_global_candidates: bool,
) -> bool {
    let k = if current_lanes.len() <= vertical_counts.len() {
        current_lanes.len() as int
    } else {
        vertical_counts.len() as int
    };
    let terms = global_gap_terms(
        current_lanes.map_values(|m: BTreeMap<NetId, usize>| m@),
        vertical_counts.map_values(|m: BTreeMap<NetId, usize>| m@),
        ranked_hot.map_values(|v: Vec<NetId>| v@),
        large_global_candidates,
        k,
    );
    &&& seq_sum(terms.0) <= (if large_global_candidates {
        MAX_LARGE_GLOBAL_GAP_PAIRS
    } else {
        MAX_GLOBAL_GAP_PAIRS
    })
    &&& seq_sum(terms.1) <= (if large_global_candidates {
        MAX_LARGE_GLOBAL_GAP_ACCESS_WORK
    } else {
        MAX_GLOBAL_GAP_ACCESS_WORK
    })
}

/// Whether the global gap-order candidates fit their work budgets. A gap
/// counts when it has at least two nets and at most `MAX_GLOBAL_GAP_LANES`
/// (`MAX_LARGE_GLOBAL_GAP_LANES` with `large_global_candidates`); its pair
/// work and its vertical-access work, summed over the counted gaps, must stay
/// within the pair and access budgets. `vertical_counts` holds each gap's
/// vertical access count per net, and `ranked_hot` each gap's nets ranked by
/// hotness.
pub fn global_gap_candidate_work_within_budget(
    current_lanes: &[BTreeMap<NetId, usize>],
    vertical_counts: &[BTreeMap<NetId, usize>],
    ranked_hot: &[Vec<NetId>],
    large_global_candidates: bool,
) -> (within: bool)
    requires
        ranked_hot@.len() == vertical_counts@.len(),
    ensures
        within == global_work_fits(current_lanes@, vertical_counts@, ranked_hot@, large_global_candidates),
{
    let ghost lanes_view = current_lanes@.map_values(|m: BTreeMap<NetId, usize>| m@);
    let ghost counts_view = vertical_counts@.map_values(|m: BTreeMap<NetId, usize>| m@);
    let ghost hot_view = ranked_hot@.map_values(|v: Vec<NetId>| v@);
    let max_lanes = if large_global_candidates {
        MAX_LARGE_GLOBAL_GAP_LANES
    } else {
        MAX_GLOBAL_GAP_LANES
    };
    let pair_budget = if large_global_candidates {
        MAX_LARGE_GLOBAL_GAP_PAIRS
    } else {
        MAX_GLOBAL_GAP_PAIRS
    };
    let access_budget = if large_global_candidates {
        MAX_LARGE_GLOBAL_GAP_ACCESS_WORK
    } else {
        MAX_GLOBAL_GAP_ACCESS_WORK
    };
    let count = if current_lanes.len() <= vertical_counts.len() {
        current_lanes.len()
    } else {
        vertical_counts.len()
    };
    let mut pair_terms: Vec<usize> = Vec::new();
    let mut access_terms: Vec<usize> = Vec::new();
    let mut gap: usize = 0;
    while gap < count
        invariant
            gap <= count,
            count <= current_lanes@.len() && count <= vertical_counts@.len(),
            ranked_hot@.len() == vertical_counts@.len(),
            max_lanes == global_max_lanes(large_global_candidates),
            lanes_view == current_lanes@.map_values(|m: BTreeMap<NetId, usize>| m@),
            counts_view == vertical_counts@.map_values(|m: BTreeMap<NetId, usize>| m@),
            hot_view == ranked_hot@.map_values(|v: Vec<NetId>| v@),
            (pair_terms@, access_terms@) == global_gap_terms(
                lanes_view,
                counts_view,
                hot_view,
                large_global_candidates,
                gap as int,
            ),
        decreases count - gap,
    {
        let lanes = &current_lanes[gap];
        let lane_count = lanes.len();
        assert(lanes_view[gap as int] == lanes@);
        assert(counts_view[gap as int] == vertical_counts@[gap as int]@);
        assert(hot_view[gap as int] == ranked_hot@[gap as int]@);
        if 2 <= lane_count && lane_count <= max_lanes {
            let pair_work = if lane_count <= MAX_GLOBAL_GAP_LANES {
                assert(lane_count * (lane_count - 1) <= 32 * 31) by (nonlinear_arith)
                    requires
                        2 <= lane_count <= 32,
                ;
                lane_count * (lane_count - 1) / 2
            } else {
                let hot = if MAX_LARGE_GLOBAL_GAP_HOT_NETS < lane_count {
                    MAX_LARGE_GLOBAL_GAP_HOT_NETS
                } else {
                    lane_count
                };
                match lane_count.checked_mul(hot) {
                    Some(pairs) => match pairs.checked_mul(2) {
                        Some(work) => work,
                        None => usize::MAX,
                    },
                    None => {
                        proof {
                            vstd::arithmetic::mul::lemma_mul_inequality(1, 2, (lane_count * hot) as int);
                        }
                        usize::MAX
                    },
                }
            };
            let access_work = if lane_count <= MAX_GLOBAL_GAP_LANES {
                small_gap_access_work_of(lane_count, &vertical_counts[gap])
            } else {
                match large_gap_hot_access_work_with_limit(
                    lanes,
                    &vertical_counts[gap],
                    ranked_hot[gap].as_slice(),
                    MAX_LARGE_GLOBAL_GAP_HOT_NETS,
                ) {
                    Some(work) => work,
                    None => usize::MAX,
                }
            };
            pair_terms.push(pair_work);
            access_terms.push(access_work);
        }
        gap = gap + 1;
    }
    let pairs_within = sum_within_limit(pair_terms.as_slice(), pair_budget);
    let access_within = sum_within_limit(access_terms.as_slice(), access_budget);
    pairs_within && access_within
}

/// Lane work charged for one refined large gap: the pairs of each of its hot
/// nets with every net, precomputed in both directions and then scanned in
/// six linear passes per round (saturating).
pub open spec fn refined_lane_work(lane_count: nat) -> nat {
    let hot = if MAX_REFINED_LARGE_GLOBAL_GAP_HOT_NETS < lane_count {
        MAX_REFINED_LARGE_GLOBAL_GAP_HOT_NETS as nat
    } else {
        lane_count
    };
    saturate((lane_count * hot * 2 + lane_count * hot * MAX_REFINED_LARGE_GLOBAL_GAP_HOT_ROUNDS * 6) as int)
}

/// The lane and access work of the large gaps among the first `k`.
pub open spec fn refined_gap_terms(
    lanes: Seq<Map<NetId, usize>>,
    counts: Seq<Map<NetId, usize>>,
    ranked_hot: Seq<Seq<NetId>>,
    k: int,
) -> (Seq<usize>, Seq<usize>)
    decreases k,
{
    if k <= 0 {
        (Seq::empty(), Seq::empty())
    } else {
        let before = refined_gap_terms(lanes, counts, ranked_hot, k - 1);
        let gap = lanes[k - 1];
        if MAX_GLOBAL_GAP_LANES < gap.len() <= MAX_LARGE_GLOBAL_GAP_LANES {
            (
                before.0.push(refined_lane_work(gap.len()) as usize),
                before.1.push(
                    match hot_access_work(
                        gap,
                        counts[k - 1],
                        hot_prefix(ranked_hot[k - 1], MAX_REFINED_LARGE_GLOBAL_GAP_HOT_NETS),
                    ) {
                        Some(work) => work as usize,
                        None => usize::MAX,
                    },
                ),
            )
        } else {
            before
        }
    }
}

/// The refined large-gap candidates fit their work budgets (see
/// `refined_large_gap_candidate_work_within_budget`).
pub open spec fn refined_work_fits(
    current_lanes: Seq<BTreeMap<NetId, usize>>,
    vertical_counts: Seq<BTreeMap<NetId, usize>>,
    ranked_hot: Seq<Vec<NetId>>,
) -> bool {
    let k = if current_lanes.len() <= vertical_counts.len() {
        current_lanes.len() as int
    } else {
        vertical_counts.len() as int
    };
    let terms = refined_gap_terms(
        current_lanes.map_values(|m: BTreeMap<NetId, usize>| m@),
        vertical_counts.map_values(|m: BTreeMap<NetId, usize>| m@),
        ranked_hot.map_values(|v: Vec<NetId>| v@),
        k,
    );
    &&& seq_sum(terms.0) <= MAX_REFINED_LARGE_GLOBAL_GAP_LANE_WORK
    &&& seq_sum(terms.1) <= MAX_LARGE_GLOBAL_GAP_ACCESS_WORK
}

/// Whether the refined large-gap candidates fit their budgets: over the
/// gaps of more than `MAX_GLOBAL_GAP_LANES` and at most
/// `MAX_LARGE_GLOBAL_GAP_LANES` nets, the lane work stays within
/// `MAX_REFINED_LARGE_GLOBAL_GAP_LANE_WORK` and the vertical-access work of
/// their first `MAX_REFINED_LARGE_GLOBAL_GAP_HOT_NETS` ranked hot nets within
/// `MAX_LARGE_GLOBAL_GAP_ACCESS_WORK`.
pub fn refined_large_gap_candidate_work_within_budget(
    current_lanes: &[BTreeMap<NetId, usize>],
    vertical_counts: &[BTreeMap<NetId, usize>],
    ranked_hot: &[Vec<NetId>],
) -> (within: bool)
    requires
        ranked_hot@.len() == vertical_counts@.len(),
    ensures
        within == refined_work_fits(current_lanes@, vertical_counts@, ranked_hot@),
{
    let ghost lanes_view = current_lanes@.map_values(|m: BTreeMap<NetId, usize>| m@);
    let ghost counts_view = vertical_counts@.map_values(|m: BTreeMap<NetId, usize>| m@);
    let ghost hot_view = ranked_hot@.map_values(|v: Vec<NetId>| v@);
    let count = if current_lanes.len() <= vertical_counts.len() {
        current_lanes.len()
    } else {
        vertical_counts.len()
    };
    let mut lane_terms: Vec<usize> = Vec::new();
    let mut access_terms: Vec<usize> = Vec::new();
    let mut gap: usize = 0;
    while gap < count
        invariant
            gap <= count,
            count <= current_lanes@.len() && count <= vertical_counts@.len(),
            ranked_hot@.len() == vertical_counts@.len(),
            lanes_view == current_lanes@.map_values(|m: BTreeMap<NetId, usize>| m@),
            counts_view == vertical_counts@.map_values(|m: BTreeMap<NetId, usize>| m@),
            hot_view == ranked_hot@.map_values(|v: Vec<NetId>| v@),
            (lane_terms@, access_terms@) == refined_gap_terms(lanes_view, counts_view, hot_view, gap as int),
        decreases count - gap,
    {
        let lanes = &current_lanes[gap];
        let lane_count = lanes.len();
        assert(lanes_view[gap as int] == lanes@);
        assert(counts_view[gap as int] == vertical_counts@[gap as int]@);
        assert(hot_view[gap as int] == ranked_hot@[gap as int]@);
        if MAX_GLOBAL_GAP_LANES < lane_count && lane_count <= MAX_LARGE_GLOBAL_GAP_LANES {
            let hot = if MAX_REFINED_LARGE_GLOBAL_GAP_HOT_NETS < lane_count {
                MAX_REFINED_LARGE_GLOBAL_GAP_HOT_NETS
            } else {
                lane_count
            };
            assert(lane_count * hot <= 705 * 256) by (nonlinear_arith)
                requires
                    lane_count <= 705,
                    hot <= 256,
            ;
            let pairs = lane_count * hot;
            let lane_work = pairs * 2 + pairs * MAX_REFINED_LARGE_GLOBAL_GAP_HOT_ROUNDS * 6;
            let access_work = match large_gap_hot_access_work_with_limit(
                lanes,
                &vertical_counts[gap],
                ranked_hot[gap].as_slice(),
                MAX_REFINED_LARGE_GLOBAL_GAP_HOT_NETS,
            ) {
                Some(work) => work,
                None => usize::MAX,
            };
            lane_terms.push(lane_work);
            access_terms.push(access_work);
        }
        gap = gap + 1;
    }
    let lanes_within = sum_within_limit(lane_terms.as_slice(), MAX_REFINED_LARGE_GLOBAL_GAP_LANE_WORK);
    let access_within = sum_within_limit(access_terms.as_slice(), MAX_LARGE_GLOBAL_GAP_ACCESS_WORK);
    lanes_within && access_within
}

} // verus!
