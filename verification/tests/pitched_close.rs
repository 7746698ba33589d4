use std::collections::{BTreeMap, BTreeSet};

use schemweave::pitched_close::{
    pitched_gap_close_vertical_pairs, pitched_gap_current_close_gaps, retain_top_pitched_gap_candidates,
};
use schemweave::pitched_tracks::{PitchedGapTracks, PitchedTrackAccess, PitchedTrackKey};

fn key(net: u32, x: f64) -> PitchedTrackKey {
    (net, if x == 0.0 { 0.0f64 } else { x }.to_bits())
}

fn runs(count: usize) -> PitchedTrackAccess {
    PitchedTrackAccess { edge_ids: BTreeSet::new(), vertical_count: count }
}

fn tracks(slots: &[(PitchedTrackKey, usize)], slot_count: usize) -> Option<PitchedGapTracks> {
    Some(PitchedGapTracks { slots: slots.iter().copied().collect(), slot_count })
}

fn overlapping(intervals: &BTreeMap<PitchedTrackKey, Vec<(f64, f64)>>, a: PitchedTrackKey, b: PitchedTrackKey) -> bool {
    intervals[&a]
        .iter()
        .any(|&(a_low, a_high)| intervals[&b].iter().any(|&(b_low, b_high)| a_low <= b_high && b_low <= a_high))
}

#[test]
fn pitched_gap_close_pair_gate_checks_conflicts_below_requested_pitch() {
    let keys = [key(10, 1.0), key(11, 2.0)];
    let intervals = BTreeMap::from([(keys[0], vec![(0.0, 10.0)]), (keys[1], vec![(5.0, 15.0)])]);
    let accesses = [BTreeMap::from([(keys[0], runs(1)), (keys[1], runs(1))])];
    let overlapping_slots = [tracks(&[(keys[0], 0), (keys[1], 0)], 1)];
    let separated = [tracks(&[(keys[0], 0), (keys[1], 1)], 2)];
    let pitch = 6.0;
    let slots_close = |distance: usize| distance as f64 * pitch < pitch;
    let conflict = |_gap: usize, a: PitchedTrackKey, b: PitchedTrackKey| overlapping(&intervals, a, b);

    assert_eq!(pitched_gap_close_vertical_pairs(&overlapping_slots, &accesses, &slots_close, &conflict), Some(1));
    assert_eq!(pitched_gap_close_vertical_pairs(&separated, &accesses, &slots_close, &conflict), Some(0));
}

#[test]
fn close_pairs_need_different_nets_and_overlapping_runs() {
    let keys = [key(10, 1.0), key(10, 3.0), key(11, 2.0), key(12, 4.0)];
    let intervals = BTreeMap::from([
        (keys[0], vec![(0.0, 10.0)]),
        (keys[1], vec![(0.0, 10.0)]),
        (keys[2], vec![(5.0, 15.0)]),
        (keys[3], vec![(20.0, 30.0)]),
    ]);
    let accesses = [keys.iter().map(|&k| (k, runs(1))).collect::<BTreeMap<_, _>>()];
    let one_slot = [tracks(&[(keys[0], 0), (keys[1], 0), (keys[2], 0), (keys[3], 0)], 1)];
    let slots_close = |distance: usize| distance == 0;
    let conflict = |_gap: usize, a: PitchedTrackKey, b: PitchedTrackKey| overlapping(&intervals, a, b);

    // Of the six pairs, only net 10 against net 11 overlaps across nets:
    // (keys[0], keys[2]) and (keys[1], keys[2]).
    assert_eq!(pitched_gap_close_vertical_pairs(&one_slot, &accesses, &slots_close, &conflict), Some(2));
}

#[test]
fn close_pairs_add_up_over_gaps_and_pass_over_gaps_without_slots() {
    let keys = [key(1, 0.0), key(2, -0.0)];
    let gap = BTreeMap::from([(keys[0], runs(1)), (keys[1], runs(1))]);
    let accesses = [gap.clone(), gap.clone(), BTreeMap::new()];
    let assignments = [tracks(&[(keys[0], 0), (keys[1], 0)], 1), tracks(&[(keys[0], 2), (keys[1], 2)], 3), None];
    let always = |_gap: usize, _a: PitchedTrackKey, _b: PitchedTrackKey| true;
    assert_eq!(pitched_gap_close_vertical_pairs(&assignments, &accesses, &|d: usize| d == 0, &always), Some(2));

    let only_first = |gap: usize, _a: PitchedTrackKey, _b: PitchedTrackKey| gap == 0;
    assert_eq!(pitched_gap_close_vertical_pairs(&assignments, &accesses, &|d: usize| d == 0, &only_first), Some(1));
}

#[test]
fn close_pairs_fail_closed() {
    let keys = [key(1, 1.0), key(2, 2.0)];
    let assignments = [tracks(&[(keys[0], 0), (keys[1], 1)], 2)];
    let always = |_gap: usize, _a: PitchedTrackKey, _b: PitchedTrackKey| true;
    let near = |distance: usize| distance <= 1;

    // One access map per gap.
    assert_eq!(pitched_gap_close_vertical_pairs(&assignments, &[], &near, &always), None);
    // Every track of a gap of two or more needs an access.
    let missing = [BTreeMap::from([(keys[0], runs(1))])];
    assert_eq!(pitched_gap_close_vertical_pairs(&assignments, &missing, &near, &always), None);
    // A lone track needs none.
    let lone = [tracks(&[(keys[0], 0)], 1)];
    assert_eq!(pitched_gap_close_vertical_pairs(&lone, &[BTreeMap::new()], &near, &always), Some(0));

    // Comparing runs is charged against the interval budget, inclusively.
    let within = [BTreeMap::from([(keys[0], runs(4_000)), (keys[1], runs(5_000))])];
    assert_eq!(pitched_gap_close_vertical_pairs(&assignments, &within, &near, &always), Some(1));
    let beyond = [BTreeMap::from([(keys[0], runs(4_000)), (keys[1], runs(5_001))])];
    assert_eq!(pitched_gap_close_vertical_pairs(&assignments, &beyond, &near, &always), None);
    let overflow = [BTreeMap::from([(keys[0], runs(usize::MAX)), (keys[1], runs(2))])];
    assert_eq!(pitched_gap_close_vertical_pairs(&assignments, &overflow, &near, &always), None);
    // The budget is shared by all gaps.
    let half = BTreeMap::from([(keys[0], runs(4_000)), (keys[1], runs(2_500))]);
    let twice = [assignments[0].clone(), assignments[0].clone()];
    assert_eq!(pitched_gap_close_vertical_pairs(&twice, &[half.clone(), half.clone()], &near, &always), Some(2));
    let more = BTreeMap::from([(keys[0], runs(4_000)), (keys[1], runs(2_501))]);
    assert_eq!(pitched_gap_close_vertical_pairs(&twice, &[half, more], &near, &always), None);
}

#[test]
fn current_close_pairs_are_counted_gap_by_gap() {
    let keys = [key(10, 1.0), key(11, 4.0), key(12, 20.0), key(11, 21.0)];
    let x = BTreeMap::from([(keys[0], 1.0), (keys[1], 4.0), (keys[2], 20.0), (keys[3], 21.0)]);
    let lanes = [
        BTreeMap::from([(keys[0], 0), (keys[1], 1), (keys[2], 2)]),
        BTreeMap::from([(keys[2], 0), (keys[3], 1)]),
        BTreeMap::new(),
    ];
    let accesses = [
        lanes[0].keys().map(|&k| (k, runs(1))).collect::<BTreeMap<_, _>>(),
        lanes[1].keys().map(|&k| (k, runs(2))).collect::<BTreeMap<_, _>>(),
        BTreeMap::new(),
    ];
    let pitch = 6.0;
    let near = |_gap: usize, a: PitchedTrackKey, b: PitchedTrackKey| f64::abs(x[&a] - x[&b]) < pitch;
    let always = |_gap: usize, _a: PitchedTrackKey, _b: PitchedTrackKey| true;
    // Gap 0: only the tracks at 1 and 4 are nearer than the pitch; gap 1:
    // the tracks at 20 and 21; gap 2 has no tracks.
    assert_eq!(pitched_gap_current_close_gaps(&lanes, &accesses, &near, &always), Some(vec![1, 1, 0]));
    let never = |_gap: usize, _a: PitchedTrackKey, _b: PitchedTrackKey| false;
    assert_eq!(pitched_gap_current_close_gaps(&lanes, &accesses, &near, &never), Some(vec![0, 0, 0]));
    assert_eq!(pitched_gap_current_close_gaps(&lanes, &accesses[..2], &near, &always), None);
    let heavy = [
        accesses[0].clone(),
        lanes[1].keys().map(|&k| (k, runs(5_000))).collect::<BTreeMap<_, _>>(),
        BTreeMap::new(),
    ];
    assert_eq!(pitched_gap_current_close_gaps(&lanes, &heavy, &near, &always), None);
}

fn total_order_key(x: f64) -> u64 {
    let bits = x.to_bits();
    if bits >> 63 == 1 { !bits } else { bits | (1 << 63) }
}

/// The order keys of how much wider each gap must be for its slots at
/// `pitch`, keeping `margin` clear on both sides.
fn deficit_keys(assignments: &[Option<PitchedGapTracks>], left: &[f64], right: &[f64], pitch: f64, margin: f64) -> Vec<u64> {
    assignments
        .iter()
        .enumerate()
        .map(|(gap, assignment)| {
            let deficit = match assignment {
                None => 0.0,
                Some(tracks) => {
                    let required = margin * 2.0 + pitch * tracks.slot_count.saturating_sub(1) as f64;
                    (required - (left[gap + 1] - right[gap])).max(0.0)
                },
            };
            total_order_key(deficit)
        })
        .collect()
}

#[test]
fn pitched_gap_top_n_order_is_the_deterministic_evaluation_order() {
    let keys = [key(10, 1.0), key(11, 2.0)];
    let assignment = |reverse: bool| {
        let entries = if reverse { [(keys[1], 1), (keys[0], 0)] } else { [(keys[0], 0), (keys[1], 1)] };
        Some(PitchedGapTracks { slots: BTreeMap::from(entries), slot_count: 3 })
    };
    let mut baseline = vec![assignment(false), assignment(false), assignment(false), assignment(false)];
    let mut permuted = vec![assignment(true), assignment(true), assignment(true), assignment(true)];
    let close_counts = [2, 5, 5, 5];
    let left = [0.0, 60.0, 120.0, 180.0, 240.0];
    let right = [20.0, 80.0, 140.0, 200.0, 260.0];
    // A lane gap of 6 and an edge clearance of 20: every gap is as wide and
    // holds as many slots, so the deficits tie.
    let deficits = deficit_keys(&baseline, &left, &right, 6.0, 20.0);

    let order = retain_top_pitched_gap_candidates(&mut baseline, &close_counts, &deficits, 2).unwrap();
    let permuted_order = retain_top_pitched_gap_candidates(&mut permuted, &close_counts, &deficits, 2).unwrap();

    assert_eq!(order, vec![1, 2]);
    assert_eq!(permuted_order, order);
    assert!(baseline[0].is_none());
    assert!(baseline[1].is_some());
    assert!(baseline[2].is_some());
    assert!(baseline[3].is_none());
    assert_eq!(permuted, baseline);
}

#[test]
fn top_candidates_rank_by_close_pairs_then_deficit_then_gap() {
    let one = Some(PitchedGapTracks { slots: BTreeMap::from([(key(1, 1.0), 0)]), slot_count: 1 });
    let start = vec![one.clone(), None, one.clone(), one.clone(), one.clone()];
    let close_counts = [3, 9, 3, 3, 4];
    let deficits = [total_order_key(2.0), 0, total_order_key(-1.0), total_order_key(2.0), total_order_key(7.5)];

    let mut assignments = start.clone();
    assert_eq!(retain_top_pitched_gap_candidates(&mut assignments, &close_counts, &deficits, 3), Some(vec![4, 2, 0]));
    assert_eq!(assignments, vec![one.clone(), None, one.clone(), None, one.clone()]);

    let mut all = start.clone();
    assert_eq!(retain_top_pitched_gap_candidates(&mut all, &close_counts, &deficits, 10), Some(vec![4, 2, 0, 3]));
    assert_eq!(all, start);

    let mut unchanged = start.clone();
    assert_eq!(retain_top_pitched_gap_candidates(&mut unchanged, &close_counts, &deficits, 0), None);
    assert_eq!(retain_top_pitched_gap_candidates(&mut unchanged, &close_counts[..4], &deficits, 2), None);
    assert_eq!(retain_top_pitched_gap_candidates(&mut unchanged, &close_counts, &deficits[..4], 2), None);
    assert_eq!(unchanged, start);
    let mut none = vec![None, None];
    assert_eq!(retain_top_pitched_gap_candidates(&mut none, &[1, 2], &[0, 0], 2), None);
    assert_eq!(none, vec![None, None]);
}
