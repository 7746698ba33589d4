//! Work and size budgets that gate the optional routing candidates.
//!
//! Every gate is fail-closed: a count that would overflow `usize` is treated
//! as exceeding its limit, and each limit is inclusive.
use vstd::prelude::*;
use std::collections::BTreeMap;
use crate::graph::{EdgeGeometry, NetId};

verus! {

/// Largest node count for which expanded gap spacing is tried at normal effort.
pub const MAX_EXPANDED_GAP_SPACING_NODES: usize = 400;
/// Largest node count for which expanded gap spacing is tried at maximum effort.
pub const MAX_EXPANDED_GAP_SPACING_MAX_NODES: usize = 2_000;
/// Largest edge count for which expanded gap spacing is tried.
pub const MAX_EXPANDED_GAP_SPACING_EDGES: usize = 10_000;

/// Crossing repair and route-family candidates: node limit.
pub const MAX_CROSSING_REPAIR_NODES: usize = 2_000;
/// Crossing repair and route-family candidates: edge limit.
pub const MAX_CROSSING_REPAIR_EDGES: usize = 10_000;
/// Crossing repair and route-family candidates: total route point limit.
pub const MAX_CROSSING_REPAIR_ROUTE_POINTS: usize = 100_000;
/// Crossing repair: total gap-lane membership limit.
pub const MAX_CROSSING_REPAIR_LANE_MEMBERSHIPS: usize = 100_000;
/// Crossing repair: total free-interval path state limit.
pub const MAX_CROSSING_REPAIR_PATH_STATES: usize = 500_000;
/// Total predicted crossings below which no crossing repair is attempted.
pub const MIN_CROSSING_REPAIR_TOTAL: usize = 500;
/// Per-net predicted crossings below which a net is never selected for repair.
pub const MIN_CROSSING_REPAIR_NET: usize = 64;
/// Number of hot nets moved together in one batched repair.
pub const MAX_BATCHED_CROSSING_REPAIR_NETS: usize = 2;
/// Number of hot nets a deeper repair may move.
pub const MAX_DEEP_CROSSING_REPAIR_NETS: usize = 4;

/// A single-source outer fanout needs this many branches to be ordered by size.
pub const MIN_FANOUT_AWARE_CHANNEL_EDGES: usize = 16;
/// Outer fanout branches needed in all before channels are ordered by fanout.
pub const MIN_FANOUT_AWARE_OUTER_BRANCHES: usize = 512;

/// Negotiated corridor: path state budget.
pub const MAX_NEGOTIATED_CORRIDOR_PATH_STATES: usize = 500_000;
/// Negotiated corridor: relaxation budget.
pub const MAX_NEGOTIATED_CORRIDOR_RELAXATIONS: usize = 500_000;
/// Negotiated corridor: relation budget.
pub const MAX_NEGOTIATED_CORRIDOR_RELATIONS: usize = 500_000;
/// Negotiated corridor: segment visit budget.
pub const MAX_NEGOTIATED_CORRIDOR_SEGMENT_VISITS: usize = 20_000_000;

/// Regional fanout: total route point limit.
pub const MAX_REGIONAL_FANOUT_ROUTE_POINTS: usize = 100_000;
/// Regional fanout: arm relation limit.
pub const MAX_REGIONAL_FANOUT_ARM_RELATIONS: usize = 500_000;
/// Regional fanout: trunk score visit budget.
pub const MAX_REGIONAL_FANOUT_SCORE_VISITS: usize = 20_000_000;
/// Regional fanout: safety check visit limit.
pub const MAX_REGIONAL_FANOUT_SAFETY_VISITS: usize = 20_000_000;

/// Horizontal track pitch: total route point limit.
pub const MAX_HORIZONTAL_PITCH_PATH_POINTS: usize = 100_000;
/// Horizontal track pitch: node limit.
pub const MAX_HORIZONTAL_PITCH_NODES: usize = 2_000;
/// Horizontal track pitch: edge limit.
pub const MAX_HORIZONTAL_PITCH_EDGES: usize = 10_000;
/// Horizontal track pitch: per-rank visit limit.
pub const MAX_HORIZONTAL_PITCH_RANK_VISITS: usize = 4_000_000;
/// Horizontal track pitch: retained track key limit.
pub const MAX_HORIZONTAL_PITCH_TRACK_KEYS: usize = 100_000;
/// Horizontal track pitch: retained track membership limit.
pub const MAX_HORIZONTAL_PITCH_TRACK_MEMBERSHIPS: usize = 100_000;
/// Horizontal track pitch: retained ordinate override limit.
pub const MAX_HORIZONTAL_PITCH_OVERRIDES: usize = 100_000;

/// Pitched gap subsets: candidate limit.
pub const MAX_PITCHED_GAP_SUBSET_CANDIDATES: usize = 32;
/// Pitched gap subsets: total route point visit limit.
pub const MAX_PITCHED_GAP_SUBSET_ROUTE_POINT_VISITS: usize = 1_000_000;
/// Fewest edges of an ordinary fanout candidate.
pub const MIN_ORDINARY_FANOUT_EDGES: usize = 3;
/// Most edges of an ordinary fanout candidate.
pub const MAX_ORDINARY_FANOUT_EDGES: usize = 20;
/// Fewest edges of a regional fanout candidate: one more than a sparse net may have.
pub const MIN_REGIONAL_FANOUT_EDGES: usize = 301;
/// Most edges of a regional fanout candidate.
pub const MAX_REGIONAL_FANOUT_EDGES: usize = 512;
/// Most tracks of a gap that pitched slots are assigned for.
pub const MAX_PITCHED_GAP_NETS: usize = 1_024;
/// Track pairs compared for pitched slots, over all gaps.
pub const MAX_PITCHED_GAP_PAIRS: usize = 2_000_000;
/// Vertical-interval comparisons for pitched slots, over all gaps.
pub const MAX_PITCHED_GAP_INTERVAL_VISITS: usize = 20_000_000;
/// Member visits of the first-fit slot search, over all gaps.
pub const MAX_PITCHED_GAP_REFINEMENT_VISITS: usize = 4_000_000;
/// Largest net routed through the sparse per-rank corridors; larger nets take
/// one outer trunk.
pub const MAX_SPARSE_NET_EDGES: usize = 300;
/// Adjacent-swap passes over the lanes of an outer channel.
pub const FULL_OUTER_LANE_ROUNDS: usize = 16;
/// Adjacent-swap passes over the lanes of a gap.
pub const FULL_GAP_LANE_ROUNDS: usize = 32;
/// Outer-channel passes of supplemental placements: the same search budget
/// as the baseline.
pub const SUPPLEMENTAL_OUTER_LANE_ROUNDS: usize = 16;
/// Gap passes of supplemental placements: the same search budget as the
/// baseline.
pub const SUPPLEMENTAL_GAP_LANE_ROUNDS: usize = 32;
/// Least crossing gain for which a net's outer routes move to the other
/// side; also the least crossings of some net for any such move to be tried.
pub const MIN_OUTER_SIDE_REPAIR_GAIN: usize = 64;
/// Nets whose outer routes move side in one repair candidate.
pub const MAX_BATCHED_OUTER_SIDE_REPAIRS: usize = 2;
/// Largest gap whose whole lane order is reseeded and refined.
pub const MAX_GLOBAL_GAP_LANES: usize = 32;
/// Least predicted crossing gain, summed over all gaps, for which a gap-lane
/// candidate replaces the baseline lanes.
pub const MIN_GLOBAL_GAP_ORDER_GAIN: usize = 256;
/// Largest gap whose lane order is improved by moving its hot nets.
pub const MAX_LARGE_GLOBAL_GAP_LANES: usize = 705;
/// Hot nets moved for the standard large-gap candidate.
pub const MAX_LARGE_GLOBAL_GAP_HOT_NETS: usize = 32;
/// Hot nets moved for the preserved refined large-gap candidate.
pub const MAX_PRESERVED_REFINED_LARGE_GLOBAL_GAP_HOT_NETS: usize = 64;
/// Passes for the preserved refined large-gap candidate.
pub const MAX_PRESERVED_REFINED_LARGE_GLOBAL_GAP_HOT_ROUNDS: usize = 2;
/// Hot nets moved for the refined large-gap candidate.
pub const MAX_REFINED_LARGE_GLOBAL_GAP_HOT_NETS: usize = 256;
/// Passes for the refined large-gap candidate.
pub const MAX_REFINED_LARGE_GLOBAL_GAP_HOT_ROUNDS: usize = 5;
/// Pair budget of the small-gap global candidates, over all gaps.
pub const MAX_GLOBAL_GAP_PAIRS: usize = 32_768;
/// Vertical-access comparison budget of the small-gap global candidates.
pub const MAX_GLOBAL_GAP_ACCESS_WORK: usize = 500_000;
/// Pair budget of the global candidates when large gaps are included.
pub const MAX_LARGE_GLOBAL_GAP_PAIRS: usize = 262_144;
/// Vertical-access comparison budget when large gaps are included.
pub const MAX_LARGE_GLOBAL_GAP_ACCESS_WORK: usize = 2_000_000;
/// Lane work budget of the refined large-gap candidates: two maximum-size
/// gaps, each charged its directional precompute and six linear passes per
/// hot net and round.
pub const MAX_REFINED_LARGE_GLOBAL_GAP_LANE_WORK: usize = MAX_LARGE_GLOBAL_GAP_LANES * (
MAX_REFINED_LARGE_GLOBAL_GAP_HOT_NETS * (2 + MAX_REFINED_LARGE_GLOBAL_GAP_HOT_ROUNDS * 6)
    + MAX_PRESERVED_REFINED_LARGE_GLOBAL_GAP_HOT_NETS * 6 + 2) * 2;

/// Sum of a sequence of counts, as a mathematical integer.
pub open spec fn seq_sum(values: Seq<usize>) -> int
    decreases values.len(),
{
    if values.len() == 0 {
        0
    } else {
        seq_sum(values.drop_last()) + values.last()
    }
}

/// A sum of counts never decreases when a count is appended.
pub proof fn lemma_seq_sum_take_step(values: Seq<usize>, i: int)
    requires
        0 <= i < values.len(),
    ensures
        seq_sum(values.take(i + 1)) == seq_sum(values.take(i)) + values[i],
{
    assert(values.take(i + 1).drop_last() =~= values.take(i));
}

/// Whether the expanded (wider) gap spacing alternative is tried for a graph.
pub fn expanded_gap_spacing_enabled(
    adaptive_gap_spacing: bool,
    max_quality_effort: bool,
    node_count: usize,
    edge_count: usize,
    outer_lanes_are_empty: bool,
) -> (enabled: bool)
    ensures
        enabled == (adaptive_gap_spacing && outer_lanes_are_empty && edge_count
            <= MAX_EXPANDED_GAP_SPACING_EDGES && (node_count <= MAX_EXPANDED_GAP_SPACING_NODES || (
        max_quality_effort && node_count <= MAX_EXPANDED_GAP_SPACING_MAX_NODES))),
{
    adaptive_gap_spacing && outer_lanes_are_empty && edge_count <= MAX_EXPANDED_GAP_SPACING_EDGES
        && (node_count <= MAX_EXPANDED_GAP_SPACING_NODES || (max_quality_effort && node_count
        <= MAX_EXPANDED_GAP_SPACING_MAX_NODES))
}

/// Whether the counts add up to at most `limit`; an overflowing sum is over the limit.
pub fn sum_within_limit(values: &[usize], limit: usize) -> (within: bool)
    ensures
        within == (seq_sum(values@) <= limit),
{
    let mut total: usize = 0;
    let mut index: usize = 0;
    while index < values.len()
        invariant
            index <= values.len(),
            total == seq_sum(values@.take(index as int)),
            total <= limit,
        decreases values.len() - index,
    {
        proof {
            lemma_seq_sum_take_step(values@, index as int);
        }
        let value = values[index];
        if value > limit || total > limit - value {
            proof {
                lemma_seq_sum_prefix_bound(values@, index as int + 1);
            }
            return false;
        }
        total = total + value;
        index = index + 1;
    }
    assert(values@.take(index as int) =~= values@);
    true
}

/// A prefix of counts never sums to more than the whole sequence.
pub proof fn lemma_seq_sum_prefix_bound(values: Seq<usize>, n: int)
    requires
        0 <= n <= values.len(),
    ensures
        seq_sum(values.take(n)) <= seq_sum(values),
    decreases values.len() - n,
{
    if n < values.len() {
        lemma_seq_sum_take_step(values, n);
        lemma_seq_sum_prefix_bound(values, n + 1);
    } else {
        assert(values.take(n) =~= values);
    }
}

/// Route points that one edge of a candidate route family can emit: ten for an
/// edge routed around the outside, and two per crossed rank plus eight for a
/// sparse channel edge; a span that cannot be counted costs `usize::MAX`.
pub open spec fn span_route_points(span: Option<(usize, usize)>) -> usize {
    match span {
        Some((source_rank, target_rank)) => {
            if source_rank <= target_rank && (target_rank - source_rank) * 2 + 8 <= usize::MAX {
                ((target_rank - source_rank) * 2 + 8) as usize
            } else {
                usize::MAX
            }
        },
        None => 10,
    }
}

/// Whether a route family built from these sparse spans stays within the route point budget.
pub fn candidate_route_points_within_budget(sparse_spans: &[Option<(usize, usize)>]) -> (within:
    bool)
    ensures
        within == (seq_sum(sparse_spans@.map_values(|span| span_route_points(span)))
            <= MAX_CROSSING_REPAIR_ROUTE_POINTS),
{
    let mut points: Vec<usize> = Vec::with_capacity(sparse_spans.len());
    let mut index: usize = 0;
    while index < sparse_spans.len()
        invariant
            index <= sparse_spans.len(),
            points@ =~= sparse_spans@.take(index as int).map_values(
                |span| span_route_points(span),
            ),
        decreases sparse_spans.len() - index,
    {
        let count = match sparse_spans[index] {
            Some((source_rank, target_rank)) => {
                if source_rank <= target_rank && target_rank - source_rank <= (usize::MAX - 8) / 2 {
                    (target_rank - source_rank) * 2 + 8
                } else {
                    usize::MAX
                }
            },
            None => 10,
        };
        points.push(count);
        index = index + 1;
    }
    assert(sparse_spans@.take(index as int) =~= sparse_spans@);
    sum_within_limit(&points, MAX_CROSSING_REPAIR_ROUTE_POINTS)
}

/// Whether a batched repair selection adds nets beyond the first batch.
pub fn repair_selection_adds_new_nets(max_repair_nets: usize, selected_nets: usize) -> (adds: bool)
    ensures
        adds == (max_repair_nets <= MAX_BATCHED_CROSSING_REPAIR_NETS || selected_nets
            > MAX_BATCHED_CROSSING_REPAIR_NETS),
{
    max_repair_nets <= MAX_BATCHED_CROSSING_REPAIR_NETS || selected_nets
        > MAX_BATCHED_CROSSING_REPAIR_NETS
}

/// Subtracts `work` from a remaining budget; fails, leaving the budget unchanged,
/// when the budget does not cover the work.
pub fn charge_negotiated_work(remaining: &mut usize, work: usize) -> (charged: Option<()>)
    ensures
        charged is Some <==> work <= *old(remaining),
        charged is Some ==> *final(remaining) == *old(remaining) - work,
        charged is None ==> *final(remaining) == *old(remaining),
{
    if work <= *remaining {
        *remaining = *remaining - work;
        Some(())
    } else {
        None
    }
}

/// Adds `count` relations; fails when the total exceeds the relation limit.
/// The total is kept even when it exceeds the limit, and left unchanged when
/// it would overflow.
pub fn charge_negotiated_relations(relations: &mut usize, count: usize) -> (charged: Option<()>)
    ensures
        *old(relations) + count <= usize::MAX ==> *final(relations) == *old(relations) + count,
        *old(relations) + count > usize::MAX ==> *final(relations) == *old(relations),
        charged is Some <==> *old(relations) + count <= MAX_NEGOTIATED_CORRIDOR_RELATIONS,
{
    if count > usize::MAX - *relations {
        return None;
    }
    *relations = *relations + count;
    if *relations <= MAX_NEGOTIATED_CORRIDOR_RELATIONS {
        Some(())
    } else {
        None
    }
}

/// Subtracts `work` from a regional fanout budget; fails, leaving the budget
/// unchanged, when the budget does not cover the work.
pub fn charge_regional_work(remaining: &mut usize, work: usize) -> (charged: Option<()>)
    ensures
        charged is Some <==> work <= *old(remaining),
        charged is Some ==> *final(remaining) == *old(remaining) - work,
        charged is None ==> *final(remaining) == *old(remaining),
{
    if work <= *remaining {
        *remaining = *remaining - work;
        Some(())
    } else {
        None
    }
}

/// Counts one more regional arm relation; fails once the total exceeds the limit.
pub fn charge_regional_relation(relations: &mut usize) -> (charged: Option<()>)
    ensures
        *old(relations) < usize::MAX ==> *final(relations) == *old(relations) + 1,
        *old(relations) == usize::MAX ==> *final(relations) == *old(relations),
        charged is Some <==> *old(relations) + 1 <= MAX_REGIONAL_FANOUT_ARM_RELATIONS,
{
    if *relations == usize::MAX {
        return None;
    }
    *relations = *relations + 1;
    if *relations <= MAX_REGIONAL_FANOUT_ARM_RELATIONS {
        Some(())
    } else {
        None
    }
}

/// Whether checking `selected_segments` against every node and every segment
/// stays within the regional safety visit limit.
pub fn regional_safety_work_within_budget(
    selected_segments: usize,
    nodes: usize,
    segments: usize,
) -> (within: bool)
    ensures
        within == (selected_segments * nodes + selected_segments * segments
            <= MAX_REGIONAL_FANOUT_SAFETY_VISITS),
{
    if nodes != 0 && selected_segments > usize::MAX / nodes {
        proof {
            lemma_product_exceeds(selected_segments as int, nodes as int);
            lemma_nonneg_product(selected_segments as int, segments as int);
        }
        return false;
    }
    proof {
        lemma_product_fits(selected_segments as int, nodes as int);
    }
    let node_visits = selected_segments * nodes;
    if segments != 0 && selected_segments > usize::MAX / segments {
        proof {
            lemma_product_exceeds(selected_segments as int, segments as int);
        }
        return false;
    }
    proof {
        lemma_product_fits(selected_segments as int, segments as int);
    }
    let relation_visits = selected_segments * segments;
    if node_visits > usize::MAX - relation_visits {
        return false;
    }
    node_visits + relation_visits <= MAX_REGIONAL_FANOUT_SAFETY_VISITS
}

proof fn lemma_product_exceeds(a: int, b: int)
    requires
        b > 0,
        a > (usize::MAX as int) / b,
    ensures
        a * b > usize::MAX,
{
    assert(a >= (usize::MAX as int) / b + 1);
    assert(a * b >= ((usize::MAX as int) / b + 1) * b) by (nonlinear_arith)
        requires
            a >= (usize::MAX as int) / b + 1,
            b > 0,
    ;
    assert(((usize::MAX as int) / b + 1) * b > usize::MAX) by (nonlinear_arith)
        requires
            b > 0,
    ;
}

proof fn lemma_product_fits(a: int, b: int)
    requires
        a >= 0,
        b >= 0,
        b == 0 || a <= (usize::MAX as int) / b,
    ensures
        0 <= a * b <= usize::MAX,
{
    if b > 0 {
        assert(a * b <= ((usize::MAX as int) / b) * b) by (nonlinear_arith)
            requires
                a <= (usize::MAX as int) / b,
                b > 0,
        ;
        assert(((usize::MAX as int) / b) * b <= usize::MAX) by (nonlinear_arith)
            requires
                b > 0,
        ;
    }
    assert(a * b >= 0) by (nonlinear_arith)
        requires
            a >= 0,
            b >= 0,
    ;
}

proof fn lemma_nonneg_product(a: int, b: int)
    requires
        a >= 0,
        b >= 0,
    ensures
        a * b >= 0,
{
    assert(a * b >= 0) by (nonlinear_arith)
        requires
            a >= 0,
            b >= 0,
    ;
}

/// Adds `amount` rank visits; fails once the total exceeds the visit limit.
/// The total is kept even when it exceeds the limit, and left unchanged when
/// it would overflow.
pub fn charge_horizontal_pitch_work(visits: &mut usize, amount: usize) -> (charged: Option<()>)
    ensures
        *old(visits) + amount <= usize::MAX ==> *final(visits) == *old(visits) + amount,
        *old(visits) + amount > usize::MAX ==> *final(visits) == *old(visits),
        charged is Some <==> *old(visits) + amount <= MAX_HORIZONTAL_PITCH_RANK_VISITS,
{
    if amount > usize::MAX - *visits {
        return None;
    }
    *visits = *visits + amount;
    if *visits <= MAX_HORIZONTAL_PITCH_RANK_VISITS {
        Some(())
    } else {
        None
    }
}

/// A number below `2^k` has at most `k` binary digits.
pub proof fn lemma_bit_length_bound(n: nat, k: nat)
    requires
        n < vstd::arithmetic::power2::pow2(k),
    ensures
        bit_length(n) <= k,
    decreases k,
{
    if n > 0 {
        if k == 0 {
            vstd::arithmetic::power2::lemma2_to64();
        } else {
            vstd::arithmetic::power2::lemma_pow2_unfold(k);
            lemma_bit_length_bound(n / 2, (k - 1) as nat);
        }
    }
}

/// Number of binary digits of `n` (zero for zero).
pub open spec fn bit_length(n: nat) -> nat
    decreases n,
{
    if n == 0 {
        0
    } else {
        bit_length(n / 2) + 1
    }
}

/// Work charged for one lookup in an ordered map with `entries` entries: the
/// number of binary digits of `entries + 1`, saturating at `usize::MAX`.
pub fn horizontal_pitch_ordered_lookup_work(entries: usize) -> (work: usize)
    ensures
        work == bit_length(if entries < usize::MAX {
            (entries + 1) as nat
        } else {
            entries as nat
        }),
{
    let target: usize = if entries < usize::MAX {
        entries + 1
    } else {
        entries
    };
    proof {
        vstd::arithmetic::power2::lemma2_to64();
        lemma_bit_length_bound(target as nat, 64);
    }
    let mut rest: usize = target;
    let mut digits: usize = 0;
    while rest > 0
        invariant
            digits + bit_length(rest as nat) == bit_length(target as nat),
            bit_length(target as nat) <= 64,
        decreases rest,
    {
        digits = digits + 1;
        rest = rest / 2;
    }
    digits
}

/// Whether the state retained by a horizontal pitch pass stays within its caps.
pub fn horizontal_pitch_retained_counts_within_bounds(
    track_keys: usize,
    track_memberships: usize,
    overrides: usize,
) -> (within: bool)
    ensures
        within == (track_keys <= MAX_HORIZONTAL_PITCH_TRACK_KEYS && track_memberships
            <= MAX_HORIZONTAL_PITCH_TRACK_MEMBERSHIPS && overrides
            <= MAX_HORIZONTAL_PITCH_OVERRIDES),
{
    track_keys <= MAX_HORIZONTAL_PITCH_TRACK_KEYS && track_memberships
        <= MAX_HORIZONTAL_PITCH_TRACK_MEMBERSHIPS && overrides <= MAX_HORIZONTAL_PITCH_OVERRIDES
}

/// Whether a layout is small enough for a horizontal pitch pass.
pub fn horizontal_pitch_shape_counts_within_bounds(
    nodes: usize,
    edges: usize,
    route_points: usize,
) -> (within: bool)
    ensures
        within == (nodes <= MAX_HORIZONTAL_PITCH_NODES && edges <= MAX_HORIZONTAL_PITCH_EDGES
            && route_points <= MAX_HORIZONTAL_PITCH_PATH_POINTS),
{
    nodes <= MAX_HORIZONTAL_PITCH_NODES && edges <= MAX_HORIZONTAL_PITCH_EDGES && route_points
        <= MAX_HORIZONTAL_PITCH_PATH_POINTS
}

/// Whether evaluating `candidate_count` pitched gap subsets over `route_points`
/// route points each stays within the subset budget.
pub fn pitched_gap_subset_work_is_bounded(candidate_count: usize, route_points: usize) -> (within:
    bool)
    ensures
        within == (candidate_count <= MAX_PITCHED_GAP_SUBSET_CANDIDATES && candidate_count
            * route_points <= MAX_PITCHED_GAP_SUBSET_ROUTE_POINT_VISITS),
{
    if candidate_count > MAX_PITCHED_GAP_SUBSET_CANDIDATES {
        return false;
    }
    if candidate_count != 0 && route_points > usize::MAX / candidate_count {
        proof {
            lemma_product_exceeds(route_points as int, candidate_count as int);
            assert(candidate_count * route_points == route_points * candidate_count) by (
            nonlinear_arith);
        }
        return false;
    }
    proof {
        lemma_product_fits(route_points as int, candidate_count as int);
        assert(candidate_count * route_points == route_points * candidate_count) by (
        nonlinear_arith);
    }
    candidate_count * route_points <= MAX_PITCHED_GAP_SUBSET_ROUTE_POINT_VISITS
}

/// Work charged by the large-gap hot insertion search, from its counts: every
/// hot vertical against every other lane, every non-hot vertical against every
/// hot net, and one repeat of each hot-to-hot pair, in both directions. `None`
/// when there are no lanes or the work does not fit in `usize`.
pub open spec fn large_gap_hot_access_work_spec(
    lane_count: nat,
    hot_count: nat,
    hot_verticals: nat,
    nonhot_verticals: nat,
) -> int {
    2 * ((lane_count - 1) * hot_verticals + hot_count * nonhot_verticals + (if hot_count > 0 {
        hot_count - 1
    } else {
        0
    }) * hot_verticals)
}

/// Work charged by the large-gap hot insertion search, from its counts.
pub fn large_gap_hot_access_work_from_counts(
    lane_count: usize,
    hot_count: usize,
    hot_verticals: usize,
    nonhot_verticals: usize,
) -> (work: Option<usize>)
    ensures
        work is Some <==> (lane_count >= 1 && large_gap_hot_access_work_spec(
            lane_count as nat,
            hot_count as nat,
            hot_verticals as nat,
            nonhot_verticals as nat,
        ) <= usize::MAX),
        work matches Some(w) ==> w == large_gap_hot_access_work_spec(
            lane_count as nat,
            hot_count as nat,
            hot_verticals as nat,
            nonhot_verticals as nat,
        ),
{
    if lane_count == 0 {
        return None;
    }
    let lanes = lane_count - 1;
    let repeated = if hot_count > 0 {
        hot_count - 1
    } else {
        0
    };
    let ghost a: int = lanes as int * hot_verticals as int;
    let ghost b: int = hot_count as int * nonhot_verticals as int;
    let ghost c: int = repeated as int * hot_verticals as int;
    proof {
        lemma_nonneg_product(lanes as int, hot_verticals as int);
        lemma_nonneg_product(hot_count as int, nonhot_verticals as int);
        lemma_nonneg_product(repeated as int, hot_verticals as int);
    }
    if hot_verticals != 0 && lanes > usize::MAX / hot_verticals {
        proof {
            lemma_product_exceeds(lanes as int, hot_verticals as int);
        }
        return None;
    }
    proof {
        lemma_product_fits(lanes as int, hot_verticals as int);
    }
    let hot_to_all = lanes * hot_verticals;
    if nonhot_verticals != 0 && hot_count > usize::MAX / nonhot_verticals {
        proof {
            lemma_product_exceeds(hot_count as int, nonhot_verticals as int);
        }
        return None;
    }
    proof {
        lemma_product_fits(hot_count as int, nonhot_verticals as int);
    }
    let nonhot_to_hot = hot_count * nonhot_verticals;
    if hot_verticals != 0 && repeated > usize::MAX / hot_verticals {
        proof {
            lemma_product_exceeds(repeated as int, hot_verticals as int);
        }
        return None;
    }
    proof {
        lemma_product_fits(repeated as int, hot_verticals as int);
    }
    let repeated_hot_to_hot = repeated * hot_verticals;
    if hot_to_all > usize::MAX - nonhot_to_hot {
        return None;
    }
    let partial = hot_to_all + nonhot_to_hot;
    if partial > usize::MAX - repeated_hot_to_hot {
        return None;
    }
    let total = partial + repeated_hot_to_hot;
    if total > usize::MAX / 2 {
        return None;
    }
    Some(total * 2)
}

/// Number of points of each route, in order.
pub open spec fn route_point_counts<P>(routes: Seq<EdgeGeometry<P>>) -> Seq<usize> {
    routes.map_values(|route: EdgeGeometry<P>| route.points@.len() as usize)
}

fn point_counts<P>(routes: &[EdgeGeometry<P>]) -> (counts: Vec<usize>)
    ensures
        counts@ == route_point_counts(routes@),
{
    let mut counts: Vec<usize> = Vec::with_capacity(routes.len());
    let mut index: usize = 0;
    while index < routes.len()
        invariant
            index <= routes@.len(),
            counts@ == route_point_counts(routes@.take(index as int)),
        decreases routes@.len() - index,
    {
        counts.push(routes[index].points.len());
        index = index + 1;
        assert(counts@ =~= route_point_counts(routes@.take(index as int)));
    }
    assert(routes@.take(index as int) =~= routes@);
    counts
}

/// Whether a complete route family is small enough to be exactly scored as a
/// repair candidate.
pub fn route_family_candidate_within_budget<P>(
    node_count: usize,
    edge_count: usize,
    routes: &[EdgeGeometry<P>],
) -> (within: bool)
    ensures
        within == (node_count <= MAX_CROSSING_REPAIR_NODES && edge_count <= MAX_CROSSING_REPAIR_EDGES
            && seq_sum(route_point_counts(routes@)) <= MAX_CROSSING_REPAIR_ROUTE_POINTS),
{
    node_count <= MAX_CROSSING_REPAIR_NODES && edge_count <= MAX_CROSSING_REPAIR_EDGES
        && sum_within_limit(&point_counts(routes), MAX_CROSSING_REPAIR_ROUTE_POINTS)
}

/// Whether a route family of the given shape, before its routes are emitted,
/// stays within the repair budget.
pub fn route_family_candidate_shape_within_budget(
    node_count: usize,
    edge_count: usize,
    sparse_spans: &[Option<(usize, usize)>],
) -> (within: bool)
    ensures
        within == (node_count <= MAX_CROSSING_REPAIR_NODES && edge_count <= MAX_CROSSING_REPAIR_EDGES
            && seq_sum(sparse_spans@.map_values(|span| span_route_points(span)))
            <= MAX_CROSSING_REPAIR_ROUTE_POINTS),
{
    node_count <= MAX_CROSSING_REPAIR_NODES && edge_count <= MAX_CROSSING_REPAIR_EDGES
        && candidate_route_points_within_budget(sparse_spans)
}

/// Free intervals of the ranks from `lo` up to, not including, `hi`.
pub open spec fn rank_free_sum(free_counts: Seq<usize>, lo: int, hi: int) -> int
    decreases hi - lo,
{
    if hi <= lo {
        0
    } else {
        rank_free_sum(free_counts, lo, hi - 1) + free_counts[hi - 1]
    }
}

/// The path states that a sparse channel edge may visit: the free intervals
/// of the ranks strictly between its two ends. An outer edge visits none.
pub open spec fn span_path_states(span: Option<(usize, usize)>, free_counts: Seq<usize>) -> int {
    match span {
        Some((source_rank, target_rank)) => rank_free_sum(free_counts, source_rank + 1, target_rank as int),
        None => 0,
    }
}

/// The path states of the first `k` edges.
pub open spec fn path_states(spans: Seq<Option<(usize, usize)>>, free_counts: Seq<usize>, k: int) -> int
    decreases k,
{
    if k <= 0 {
        0
    } else {
        path_states(spans, free_counts, k - 1) + span_path_states(spans[k - 1], free_counts)
    }
}

/// A span runs forward between two ranks that exist.
pub open spec fn span_valid(span: Option<(usize, usize)>, rank_count: int) -> bool {
    match span {
        Some((source_rank, target_rank)) => source_rank < target_rank && target_rank <= rank_count,
        None => true,
    }
}

/// The number of entries of each map, in order.
pub open spec fn lane_counts(gap_lanes: Seq<BTreeMap<NetId, usize>>) -> Seq<usize> {
    gap_lanes.map_values(|lanes: BTreeMap<NetId, usize>| lanes@.len() as usize)
}

/// The number of free intervals of each rank, in order.
pub open spec fn free_counts<I>(free_by_rank: Seq<Vec<I>>) -> Seq<usize> {
    free_by_rank.map_values(|free: Vec<I>| free@.len() as usize)
}

/// The size gates of a crossing repair that come before its path states.
pub open spec fn repair_sizes_within(
    node_count: usize,
    edge_count: usize,
    route_points: int,
    lane_memberships: int,
) -> bool {
    &&& node_count <= MAX_CROSSING_REPAIR_NODES
    &&& edge_count <= MAX_CROSSING_REPAIR_EDGES
    &&& route_points <= MAX_CROSSING_REPAIR_ROUTE_POINTS
    &&& lane_memberships <= MAX_CROSSING_REPAIR_LANE_MEMBERSHIPS
}

proof fn lemma_path_states_grow(spans: Seq<Option<(usize, usize)>>, free_counts: Seq<usize>, a: int, b: int)
    requires
        a <= b,
    ensures
        path_states(spans, free_counts, a) <= path_states(spans, free_counts, b),
    decreases b - a,
{
    if a < b {
        lemma_path_states_grow(spans, free_counts, a, b - 1);
        lemma_rank_free_sum_nonnegative(free_counts, match spans[b - 1] {
            Some((s, _)) => s + 1,
            None => 0,
        }, match spans[b - 1] {
            Some((_, t)) => t as int,
            None => 0,
        });
    }
}

proof fn lemma_rank_free_sum_nonnegative(free_counts: Seq<usize>, lo: int, hi: int)
    ensures
        rank_free_sum(free_counts, lo, hi) >= 0,
    decreases hi - lo,
{
    if hi > lo {
        lemma_rank_free_sum_nonnegative(free_counts, lo, hi - 1);
    }
}

proof fn lemma_rank_free_sum_grow(free_counts: Seq<usize>, lo: int, mid: int, hi: int)
    requires
        lo <= mid <= hi,
    ensures
        rank_free_sum(free_counts, lo, mid) <= rank_free_sum(free_counts, lo, hi),
    decreases hi - mid,
{
    if mid < hi {
        lemma_rank_free_sum_grow(free_counts, lo, mid, hi - 1);
    }
}

/// Whether a crossing repair of this layout stays within every budget: its
/// nodes, edges, route points, gap lane memberships, and the path states its
/// sparse channel edges may visit (see `path_states`).
///
/// Ranks are read only as far as the path states stay within their budget:
/// every sparse span reached up to then must run forward between two ranks
/// of `free_by_rank`.
pub fn crossing_repair_within_budget<P, I>(
    node_count: usize,
    edge_count: usize,
    routes: &[EdgeGeometry<P>],
    gap_lanes: &[BTreeMap<NetId, usize>],
    sparse_spans: &[Option<(usize, usize)>],
    free_by_rank: &[Vec<I>],
) -> (within: bool)
    requires
        repair_sizes_within(
            node_count,
            edge_count,
            seq_sum(route_point_counts(routes@)),
            seq_sum(lane_counts(gap_lanes@)),
        ) ==> forall|k: int|
            0 <= k < sparse_spans@.len() && path_states(sparse_spans@, free_counts(free_by_rank@), k)
                <= MAX_CROSSING_REPAIR_PATH_STATES ==> span_valid(#[trigger] sparse_spans@[k], free_by_rank@.len() as int),
    ensures
        within == (repair_sizes_within(
            node_count,
            edge_count,
            seq_sum(route_point_counts(routes@)),
            seq_sum(lane_counts(gap_lanes@)),
        ) && path_states(sparse_spans@, free_counts(free_by_rank@), sparse_spans@.len() as int)
            <= MAX_CROSSING_REPAIR_PATH_STATES),
{
    if node_count > MAX_CROSSING_REPAIR_NODES || edge_count > MAX_CROSSING_REPAIR_EDGES {
        return false;
    }
    if !sum_within_limit(&point_counts(routes), MAX_CROSSING_REPAIR_ROUTE_POINTS) {
        return false;
    }
    let mut memberships: Vec<usize> = Vec::with_capacity(gap_lanes.len());
    let mut index: usize = 0;
    while index < gap_lanes.len()
        invariant
            index <= gap_lanes@.len(),
            memberships@ == lane_counts(gap_lanes@.take(index as int)),
        decreases gap_lanes@.len() - index,
    {
        memberships.push(gap_lanes[index].len());
        index = index + 1;
        assert(memberships@ =~= lane_counts(gap_lanes@.take(index as int)));
    }
    assert(gap_lanes@.take(index as int) =~= gap_lanes@);
    if !sum_within_limit(&memberships, MAX_CROSSING_REPAIR_LANE_MEMBERSHIPS) {
        return false;
    }
    let ghost counts = free_counts(free_by_rank@);
    let ghost spans = sparse_spans@;
    let mut total: usize = 0;
    let mut k: usize = 0;
    while k < sparse_spans.len()
        invariant
            k <= spans.len(),
            spans == sparse_spans@,
            counts == free_counts(free_by_rank@),
            forall|j: int|
                0 <= j < spans.len() && path_states(spans, counts, j) <= MAX_CROSSING_REPAIR_PATH_STATES
                    ==> span_valid(#[trigger] spans[j], free_by_rank@.len() as int),
            total == path_states(spans, counts, k as int),
            total <= MAX_CROSSING_REPAIR_PATH_STATES,
        decreases spans.len() - k,
    {
        match sparse_spans[k] {
            Some((source_rank, target_rank)) => {
                assert(span_valid(spans[k as int], free_by_rank@.len() as int));
                let ghost before = total as int;
                let mut rank = source_rank + 1;
                while rank < target_rank
                    invariant
                        source_rank < target_rank <= free_by_rank@.len(),
                        source_rank + 1 <= rank <= target_rank,
                        spans == sparse_spans@,
                        counts == free_counts(free_by_rank@),
                        spans[k as int] == Some((source_rank, target_rank)),
                        forall|j: int|
                            0 <= j < spans.len() && path_states(spans, counts, j) <= MAX_CROSSING_REPAIR_PATH_STATES
                                ==> span_valid(#[trigger] spans[j], free_by_rank@.len() as int),
                        k < spans.len(),
                        before == path_states(spans, counts, k as int),
                        total == before + rank_free_sum(counts, source_rank + 1, rank as int),
                        total <= MAX_CROSSING_REPAIR_PATH_STATES,
                    decreases target_rank - rank,
                {
                    let free = free_by_rank[rank].len();
                    assert(counts[rank as int] == free);
                    if free > MAX_CROSSING_REPAIR_PATH_STATES - total {
                        proof {
                            lemma_rank_free_sum_grow(counts, source_rank + 1, rank + 1, target_rank as int);
                            lemma_path_states_grow(spans, counts, k + 1, spans.len() as int);
                        }
                        return false;
                    }
                    total = total + free;
                    rank = rank + 1;
                }
            },
            None => {},
        }
        k = k + 1;
    }
    true
}

} // verus!
