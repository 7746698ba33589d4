use std::collections::{BTreeMap, BTreeSet};

use schemweave::budget::{
    FULL_GAP_LANE_ROUNDS, FULL_OUTER_LANE_ROUNDS, MAX_CROSSING_REPAIR_NODES, MAX_GLOBAL_GAP_ACCESS_WORK,
    MAX_GLOBAL_GAP_LANES, MAX_GLOBAL_GAP_PAIRS, MAX_LARGE_GLOBAL_GAP_HOT_NETS, MAX_LARGE_GLOBAL_GAP_LANES,
    MAX_PRESERVED_REFINED_LARGE_GLOBAL_GAP_HOT_NETS, MAX_PRESERVED_REFINED_LARGE_GLOBAL_GAP_HOT_ROUNDS,
    MAX_REFINED_LARGE_GLOBAL_GAP_HOT_NETS, MAX_REFINED_LARGE_GLOBAL_GAP_HOT_ROUNDS, MIN_GLOBAL_GAP_ORDER_GAIN,
    SUPPLEMENTAL_GAP_LANE_ROUNDS, SUPPLEMENTAL_OUTER_LANE_ROUNDS,
};
use schemweave::gap_order::crossing_aware_gap_lane_indices_with_rounds;
use schemweave::gap_work::global_gap_candidate_work_within_budget;
use schemweave::global_order::{global_gap_lane_indices_with_rounds, global_gap_order_seed};
use schemweave::hot_insertion::{large_gap_hot_insertion_orders_with_rounds, refined_large_gap_hot_insertion_orders};
use schemweave::outer::crossing_aware_outer_lane_indices_with_rounds;

/// How one net meets a gap: its vertical runs, and the ordinates of its
/// horizontal runs entering from the left layer and leaving to the right one.
#[derive(Clone, Default)]
struct GapAccess {
    vertical: Vec<(f64, f64)>,
    left_y: Vec<f64>,
    right_y: Vec<f64>,
}

/// How one net meets an outer channel: its horizontal runs and the abscissas
/// of its vertical runs.
struct OuterAccess {
    horizontal: Vec<(f64, f64)>,
    vertical_x: Vec<f64>,
}

fn runs_crossed(runs: &[(f64, f64)], crossing: &[f64]) -> usize {
    runs.iter()
        .map(|&(low, high)| {
            if low >= high {
                return 0;
            }
            let start = crossing.partition_point(|&y| y <= low);
            let end = crossing.partition_point(|&y| y < high);
            end - start
        })
        .sum()
}

fn gap_pair_crossings(left: &GapAccess, right: &GapAccess) -> usize {
    runs_crossed(&left.vertical, &right.left_y) + runs_crossed(&right.vertical, &left.right_y)
}

fn gap_cost(accesses: &BTreeMap<u32, GapAccess>) -> impl Fn(u32, u32) -> usize + Copy + '_ {
    move |left, right| gap_pair_crossings(&accesses[&left], &accesses[&right])
}

fn outer_cost(accesses: &BTreeMap<u32, OuterAccess>) -> impl Fn(u32, u32) -> usize + Copy + '_ {
    move |inner, outer| runs_crossed(&accesses[&inner].horizontal, &accesses[&outer].vertical_x)
}

/// The nets of `lanes` ranked by vertical run count, then total vertical
/// span, then net, and cut after `limit`.
fn hot_nets_with_limit(accesses: &BTreeMap<u32, GapAccess>, lanes: &BTreeMap<u32, usize>, limit: usize) -> Vec<u32> {
    let mut hot = accesses
        .iter()
        .filter(|(net, _)| lanes.contains_key(net))
        .map(|(&net, access)| {
            let span = access.vertical.iter().map(|&(low, high)| high - low).sum::<f64>();
            (net, access.vertical.len(), span)
        })
        .collect::<Vec<_>>();
    hot.sort_by(|left, right| right.1.cmp(&left.1).then_with(|| right.2.total_cmp(&left.2)).then(left.0.cmp(&right.0)));
    hot.truncate(limit);
    hot.into_iter().map(|(net, _, _)| net).collect()
}

fn hot_nets(accesses: &BTreeMap<u32, GapAccess>, lanes: &BTreeMap<u32, usize>) -> Vec<u32> {
    hot_nets_with_limit(accesses, lanes, MAX_LARGE_GLOBAL_GAP_HOT_NETS)
}

fn ranked(accesses: &BTreeMap<u32, GapAccess>, lanes: &BTreeMap<u32, usize>) -> Vec<u32> {
    hot_nets_with_limit(accesses, lanes, usize::MAX)
}

fn gap_lanes(current: &BTreeMap<u32, usize>, accesses: &BTreeMap<u32, GapAccess>, rounds: usize) -> BTreeMap<u32, usize> {
    crossing_aware_gap_lane_indices_with_rounds(current, gap_cost(accesses), rounds)
}

fn global_lanes(
    current: &BTreeMap<u32, usize>,
    accesses: &BTreeMap<u32, GapAccess>,
    rounds: usize,
    baseline: &BTreeMap<u32, usize>,
    large: bool,
) -> Option<(BTreeMap<u32, usize>, usize)> {
    global_gap_lane_indices_with_rounds(current, gap_cost(accesses), rounds, baseline, large, &ranked(accesses, baseline))
}

fn hot_insertion_order(
    accesses: &BTreeMap<u32, GapAccess>,
    baseline: &BTreeMap<u32, usize>,
    hot_limit: usize,
    rounds: usize,
) -> Option<(BTreeMap<u32, usize>, usize)> {
    large_gap_hot_insertion_orders_with_rounds(baseline, &ranked(accesses, baseline), hot_limit, &gap_cost(accesses), rounds, None)
        .1
}

/// Moves each hot net to its cheapest position, pass after pass, computing
/// every insertion cost from scratch.
fn hot_insertion_reference(
    accesses: &BTreeMap<u32, GapAccess>,
    baseline: &BTreeMap<u32, usize>,
    hot_limit: usize,
    rounds: usize,
) -> Option<(BTreeMap<u32, usize>, usize)> {
    if !(MAX_GLOBAL_GAP_LANES + 1..=MAX_LARGE_GLOBAL_GAP_LANES).contains(&baseline.len()) {
        return None;
    }
    let mut ordered = baseline.iter().map(|(&net, &lane)| (lane, net)).collect::<Vec<_>>();
    ordered.sort_unstable();
    let mut ordered = ordered.into_iter().map(|(_, net)| net).collect::<Vec<_>>();
    let hot = hot_nets_with_limit(accesses, baseline, hot_limit);
    let mut total_gain = 0usize;
    for _ in 0..rounds {
        let mut changed = false;
        for &hot_net in &hot {
            let Some(current_index) = ordered.iter().position(|&net| net == hot_net) else {
                continue;
            };
            ordered.remove(current_index);
            let pair_costs = ordered
                .iter()
                .map(|&other| {
                    (
                        gap_pair_crossings(&accesses[&hot_net], &accesses[&other]),
                        gap_pair_crossings(&accesses[&other], &accesses[&hot_net]),
                    )
                })
                .collect::<Vec<_>>();
            let mut insertion_cost = pair_costs.iter().map(|&(hot_before, _)| hot_before).fold(0usize, usize::saturating_add);
            let mut best_index = 0usize;
            let mut best_cost = insertion_cost;
            let mut current_cost = if current_index == 0 { insertion_cost } else { 0 };
            for (index, &(hot_before, other_before)) in pair_costs.iter().enumerate() {
                insertion_cost = insertion_cost.saturating_sub(hot_before).saturating_add(other_before);
                if index + 1 == current_index {
                    current_cost = insertion_cost;
                }
                if insertion_cost < best_cost {
                    best_cost = insertion_cost;
                    best_index = index + 1;
                }
            }
            if current_cost > best_cost {
                total_gain = total_gain.saturating_add(current_cost - best_cost);
                ordered.insert(best_index, hot_net);
                changed = true;
            } else {
                ordered.insert(current_index, hot_net);
            }
        }
        if !changed {
            break;
        }
    }
    if total_gain > 0 {
        Some((ordered.into_iter().enumerate().map(|(lane, net)| (net, lane)).collect(), total_gain))
    } else {
        None
    }
}

fn vertical_counts(accesses: &BTreeMap<u32, GapAccess>) -> BTreeMap<u32, usize> {
    accesses.iter().map(|(&net, access)| (net, access.vertical.len())).collect()
}

fn global_work_within_budget(lanes: &[BTreeMap<u32, usize>], accesses: &[BTreeMap<u32, GapAccess>], large: bool) -> bool {
    let counts = accesses.iter().map(vertical_counts).collect::<Vec<_>>();
    let hot = lanes.iter().zip(accesses).map(|(lanes, accesses)| ranked(accesses, lanes)).collect::<Vec<_>>();
    global_gap_candidate_work_within_budget(lanes, &counts, &hot, large)
}

fn access(vertical: Vec<(f64, f64)>, left_y: Vec<f64>, right_y: Vec<f64>) -> GapAccess {
    GapAccess { vertical, left_y, right_y }
}

#[test]
fn gap_lane_transpose_uses_predicted_crossing_cost() {
    let current = BTreeMap::from([(1, 0), (2, 1)]);
    let accesses = BTreeMap::from([
        (1, access(vec![(0.0, 10.0)], Vec::new(), Vec::new())),
        (2, access(vec![(20.0, 30.0)], vec![5.0], Vec::new())),
    ]);

    let lanes = gap_lanes(&current, &accesses, FULL_GAP_LANE_ROUNDS);

    assert_eq!(lanes[&2], 0);
    assert_eq!(lanes[&1], 1);
}

#[test]
fn global_gap_order_escapes_an_adjacent_swap_plateau_and_preserves_ties() {
    let current = BTreeMap::from([(0, 0), (1, 1), (2, 2)]);
    let accesses = BTreeMap::from([
        (0, access(vec![(0.0, 40.0)], vec![0.0], vec![40.0])),
        (1, access(vec![(40.0, 80.0)], vec![40.0], vec![80.0])),
        (2, access(vec![(0.0, 80.0)], vec![80.0], vec![0.0])),
    ]);
    let baseline = gap_lanes(&current, &accesses, FULL_GAP_LANE_ROUNDS);
    let (global, gain) = global_lanes(&current, &accesses, FULL_GAP_LANE_ROUNDS, &baseline, false)
        .expect("global seed escapes the strict adjacent plateau");

    assert_eq!(baseline, current);
    assert_eq!(global, BTreeMap::from([(1, 0), (2, 1), (0, 2)]));
    assert_eq!(gain, 1);

    let tied_order = BTreeMap::from([(0, 1), (1, 2), (2, 0)]);
    let tied_access = access(vec![(0.0, 20.0)], vec![10.0], vec![10.0]);
    let tied = BTreeMap::from([(0, tied_access.clone()), (1, tied_access.clone()), (2, tied_access)]);
    let tied_seed = global_gap_order_seed(&tied_order, gap_cost(&tied)).unwrap();
    assert_eq!(tied_seed, vec![2, 0, 1]);
    assert!(
        global_lanes(&tied_order, &tied, FULL_GAP_LANE_ROUNDS, &tied_order, false).is_none(),
        "equal nonzero pair costs must retain the non-ID stable lane order"
    );
}

#[test]
fn supplemental_gap_lane_transpose_can_reach_the_best_lane() {
    let current = (0..18u32).map(|net| (net, net as usize)).collect::<BTreeMap<_, _>>();
    let mut accesses = (0..17u32)
        .map(|net| (net, access(vec![(0.0, 10.0)], Vec::new(), Vec::new())))
        .collect::<BTreeMap<_, _>>();
    accesses.insert(17, access(vec![(20.0, 30.0)], vec![5.0], Vec::new()));

    let legacy = gap_lanes(&current, &accesses, 8);
    let lanes = gap_lanes(&current, &accesses, SUPPLEMENTAL_GAP_LANE_ROUNDS);

    assert_eq!(legacy[&17], 9);
    assert_eq!(lanes[&17], 0);
    assert_eq!(SUPPLEMENTAL_GAP_LANE_ROUNDS, FULL_GAP_LANE_ROUNDS);
}

#[test]
fn outer_lane_transpose_uses_predicted_crossing_cost() {
    let nets = BTreeSet::from([1, 2]);
    let accesses = BTreeMap::from([
        (1, OuterAccess { horizontal: vec![(0.0, 10.0)], vertical_x: vec![20.0] }),
        (2, OuterAccess { horizontal: vec![(20.0, 30.0)], vertical_x: vec![5.0] }),
    ]);

    let lanes = crossing_aware_outer_lane_indices_with_rounds(&nets, outer_cost(&accesses), FULL_OUTER_LANE_ROUNDS);

    assert_eq!(lanes[&2], 0);
    assert_eq!(lanes[&1], 1);
}

#[test]
fn supplemental_outer_lane_transpose_can_reach_the_best_lane() {
    let nets = (0..10u32).collect::<BTreeSet<_>>();
    let mut accesses = (0..9u32)
        .map(|net| (net, OuterAccess { horizontal: vec![(0.0, 10.0)], vertical_x: vec![20.0] }))
        .collect::<BTreeMap<_, _>>();
    accesses.insert(9, OuterAccess { horizontal: vec![(20.0, 30.0)], vertical_x: vec![5.0] });

    let legacy = crossing_aware_outer_lane_indices_with_rounds(&nets, outer_cost(&accesses), 4);
    let lanes = crossing_aware_outer_lane_indices_with_rounds(&nets, outer_cost(&accesses), SUPPLEMENTAL_OUTER_LANE_ROUNDS);

    assert_eq!(legacy[&9], 5);
    assert_eq!(lanes[&9], 0);
    assert_eq!(SUPPLEMENTAL_OUTER_LANE_ROUNDS, FULL_OUTER_LANE_ROUNDS);
}

#[test]
fn global_gap_order_enforces_per_gap_and_aggregate_work_gates() {
    let candidates = |count: u32| {
        let current = (0..count).enumerate().map(|(lane, net)| (net, lane)).collect::<BTreeMap<_, _>>();
        let mut accesses = (0..count).map(|net| (net, GapAccess::default())).collect::<BTreeMap<_, _>>();
        if count >= 2 {
            accesses.get_mut(&0).unwrap().vertical.push((0.0, 20.0));
            accesses.get_mut(&1).unwrap().left_y.push(10.0);
        }
        global_lanes(&current, &accesses, 0, &current, false)
    };
    assert!(candidates(1).is_none());
    assert!(candidates(2).is_some());
    assert!(candidates(32).is_some());
    assert!(candidates(33).is_none());

    assert_eq!(MAX_GLOBAL_GAP_PAIRS, 32_768);
    assert_eq!(MAX_GLOBAL_GAP_ACCESS_WORK, 500_000);
    let twenty_lanes = (0..20u32).enumerate().map(|(lane, net)| (net, lane)).collect::<BTreeMap<_, _>>();
    let twenty_accesses = (0..20u32).map(|net| (net, GapAccess::default())).collect::<BTreeMap<_, _>>();
    assert!(global_work_within_budget(&vec![twenty_lanes.clone(); 172], &vec![twenty_accesses.clone(); 172], false));
    assert!(!global_work_within_budget(&vec![twenty_lanes; 173], &vec![twenty_accesses; 173], false));
    let two_lanes = vec![BTreeMap::from([(0, 0), (1, 1)])];
    let access_budget = |vertical_count| {
        vec![BTreeMap::from([
            (0, access(vec![(0.0, 1.0); vertical_count], Vec::new(), Vec::new())),
            (1, GapAccess::default()),
        ])]
    };
    assert!(global_work_within_budget(&two_lanes, &access_budget(250_000), false));
    assert!(!global_work_within_budget(&two_lanes, &access_budget(250_001), false));

    assert_eq!(MIN_GLOBAL_GAP_ORDER_GAIN, 256);
    assert_eq!(MAX_CROSSING_REPAIR_NODES, 2_000);
}

#[test]
fn large_gap_hot_insertion_is_bounded_and_deterministic() {
    let count = 40u32;
    let current = (0..count).enumerate().map(|(lane, net)| (net, lane)).collect::<BTreeMap<_, _>>();
    let hot = count - 1;
    let accesses = (0..count)
        .map(|net| {
            let access = if net == hot {
                access(vec![(0.0, 1.0), (2.0, 3.0)], vec![100.0], vec![0.0])
            } else {
                access(vec![(50.0, 150.0)], Vec::new(), Vec::new())
            };
            (net, access)
        })
        .collect::<BTreeMap<_, _>>();

    assert!(
        global_lanes(&current, &accesses, 0, &current, false).is_none(),
        "large-gap insertion requires the explicit large candidate gate"
    );

    let (candidate, gain) =
        global_lanes(&current, &accesses, 0, &current, true).expect("hot net should move across the large gap");
    assert_eq!(candidate[&hot], 0);
    assert_eq!(gain, (count - 1) as usize);

    let mut lanes = candidate.values().copied().collect::<Vec<_>>();
    lanes.sort_unstable();
    assert_eq!(lanes, (0..count as usize).collect::<Vec<_>>());

    let oversized = (0..=MAX_LARGE_GLOBAL_GAP_LANES as u32)
        .enumerate()
        .map(|(lane, net)| (net, lane))
        .collect::<BTreeMap<_, _>>();
    assert!(global_lanes(&oversized, &accesses, 0, &oversized, true).is_none());

    let tied_accesses = (0..count)
        .rev()
        .map(|net| (net, access(vec![(0.0, 1.0)], Vec::new(), Vec::new())))
        .collect::<BTreeMap<_, _>>();
    assert_eq!(hot_nets(&tied_accesses, &current), (0..MAX_LARGE_GLOBAL_GAP_HOT_NETS as u32).collect::<Vec<_>>());
    assert_eq!(hot_nets_with_limit(&tied_accesses, &current, count as usize), (0..count).collect::<Vec<_>>());
    let mut cutoff = tied_accesses;
    cutoff.get_mut(&32).unwrap().vertical.push((2.0, 3.0));
    let selected = hot_nets(&cutoff, &current);
    assert_eq!(selected[0], 32);
    assert!(selected.contains(&30));
    assert!(!selected.contains(&31));
}

#[test]
fn refined_large_gap_insertion_extends_the_bounded_hot_set_deterministically() {
    let count = 80u32;
    let current = (0..count).enumerate().map(|(lane, net)| (net, lane)).collect::<BTreeMap<_, _>>();
    let accesses = (0..count)
        .map(|net| {
            let access = if net >= 40 {
                access(vec![(0.0, 1.0), (2.0, 3.0)], vec![100.0], vec![0.0])
            } else {
                access(vec![(50.0, 150.0)], Vec::new(), Vec::new())
            };
            (net, access)
        })
        .collect::<BTreeMap<_, _>>();

    let (baseline, baseline_gain) = hot_insertion_order(&accesses, &current, MAX_LARGE_GLOBAL_GAP_HOT_NETS, 1).unwrap();
    let preserved_refined = hot_insertion_order(
        &accesses,
        &current,
        MAX_PRESERVED_REFINED_LARGE_GLOBAL_GAP_HOT_NETS,
        MAX_PRESERVED_REFINED_LARGE_GLOBAL_GAP_HOT_ROUNDS,
    )
    .expect("preserved refined search should improve the standard candidate");
    let refined = hot_insertion_order(
        &accesses,
        &current,
        MAX_REFINED_LARGE_GLOBAL_GAP_HOT_NETS,
        MAX_REFINED_LARGE_GLOBAL_GAP_HOT_ROUNDS,
    )
    .expect("expanded hot set should move the remaining hot nets");
    let fused = refined_large_gap_hot_insertion_orders(&current, &ranked(&accesses, &current), &gap_cost(&accesses));
    let expected_global = Some((baseline.clone(), baseline_gain));
    assert_eq!(fused.global, expected_global);
    assert_eq!(fused.global, hot_insertion_reference(&accesses, &current, MAX_LARGE_GLOBAL_GAP_HOT_NETS, 1));
    assert_eq!(fused.preserved_refined, Some(preserved_refined.clone()));
    assert_eq!(
        fused.preserved_refined,
        hot_insertion_reference(
            &accesses,
            &current,
            MAX_PRESERVED_REFINED_LARGE_GLOBAL_GAP_HOT_NETS,
            MAX_PRESERVED_REFINED_LARGE_GLOBAL_GAP_HOT_ROUNDS,
        )
    );
    assert_eq!(fused.refined, Some(refined.clone()));
    assert_eq!(
        fused.refined,
        hot_insertion_reference(
            &accesses,
            &current,
            MAX_REFINED_LARGE_GLOBAL_GAP_HOT_NETS,
            MAX_REFINED_LARGE_GLOBAL_GAP_HOT_ROUNDS,
        )
    );
    assert_ne!(refined.0, baseline);
    assert!(refined.1 > baseline_gain);
    assert!(refined.0[&79] < baseline[&79]);
    assert_eq!(
        hot_insertion_order(
            &accesses,
            &current,
            MAX_REFINED_LARGE_GLOBAL_GAP_HOT_NETS,
            MAX_REFINED_LARGE_GLOBAL_GAP_HOT_ROUNDS,
        ),
        Some(refined)
    );
}
