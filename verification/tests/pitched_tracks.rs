use std::collections::{BTreeMap, BTreeSet};

use schemweave::budget::{
    MAX_PITCHED_GAP_INTERVAL_VISITS, MAX_PITCHED_GAP_PAIRS, MAX_PITCHED_GAP_REFINEMENT_VISITS,
};
use schemweave::pitched_tracks::{
    pitched_gap_track_assignment, pitched_gap_track_assignments, PitchedGapTracks, PitchedGapWork,
    PitchedTrackAccess, PitchedTrackKey,
};

fn access(edges: &[u32], vertical_count: usize) -> PitchedTrackAccess {
    PitchedTrackAccess { edge_ids: edges.iter().copied().collect::<BTreeSet<u32>>(), vertical_count }
}

fn lanes_of(entries: &[(PitchedTrackKey, usize)]) -> BTreeMap<PitchedTrackKey, usize> {
    entries.iter().copied().collect()
}

fn accesses_of(entries: &[(PitchedTrackKey, &[u32], usize)]) -> BTreeMap<PitchedTrackKey, PitchedTrackAccess> {
    entries.iter().map(|(key, edges, count)| (*key, access(edges, *count))).collect()
}

fn slots_of(entries: &[(PitchedTrackKey, usize)]) -> BTreeMap<PitchedTrackKey, usize> {
    entries.iter().copied().collect()
}

fn never_overlap(_gap: usize, _a: PitchedTrackKey, _b: PitchedTrackKey) -> bool {
    false
}

#[test]
fn pitched_slots_follow_first_fit_in_rank_order() {
    let lanes = lanes_of(&[((1, 10), 0), ((2, 20), 1), ((3, 30), 2), ((1, 40), 3)]);
    let accesses = accesses_of(&[
        ((1, 10), &[1], 1),
        ((2, 20), &[2], 1),
        ((3, 30), &[3], 1),
        ((1, 40), &[4], 1),
    ]);
    let overlapping = [((1, 10), (2, 20)), ((1, 40), (2, 20)), ((1, 40), (3, 30))];
    let result = pitched_gap_track_assignments(&[lanes], &[accesses], 2, 2, |_, a, b| overlapping.contains(&(a, b)));
    let expected = PitchedGapTracks {
        slots: slots_of(&[((1, 10), 0), ((2, 20), 1), ((3, 30), 0), ((1, 40), 2)]),
        slot_count: 3,
    };
    assert_eq!(result, Some(vec![Some(expected)]));
}

#[test]
fn pitched_tracks_sharing_an_edge_take_rising_slots() {
    let lanes = lanes_of(&[((5, 1), 0), ((6, 1), 1), ((7, 1), 2)]);
    let accesses = accesses_of(&[((5, 1), &[7], 2), ((6, 1), &[7], 3), ((7, 1), &[8], 1)]);
    let result = pitched_gap_track_assignments(&[lanes], &[accesses], 2, 2, never_overlap);
    let expected = PitchedGapTracks { slots: slots_of(&[((5, 1), 0), ((6, 1), 1), ((7, 1), 0)]), slot_count: 2 };
    assert_eq!(result, Some(vec![Some(expected)]));
}

#[test]
fn pitched_tracks_of_one_net_share_a_slot() {
    let lanes = lanes_of(&[((9, 1), 0), ((9, 2), 1)]);
    let accesses = accesses_of(&[((9, 1), &[1], 1), ((9, 2), &[2], 1)]);
    let result = pitched_gap_track_assignments(&[lanes], &[accesses], 2, 2, |_, _, _| true);
    let expected = PitchedGapTracks { slots: slots_of(&[((9, 1), 0), ((9, 2), 0)]), slot_count: 1 };
    assert_eq!(result, Some(vec![Some(expected)]));
}

#[test]
fn pitched_tracks_of_different_nets_with_overlapping_runs_take_separate_slots() {
    let lanes = lanes_of(&[((1, 1), 0), ((2, 1), 1)]);
    let accesses = accesses_of(&[((1, 1), &[1], 1), ((2, 1), &[2], 1)]);
    let result = pitched_gap_track_assignments(&[lanes], &[accesses], 2, 2, |_, _, _| true);
    let expected = PitchedGapTracks { slots: slots_of(&[((1, 1), 0), ((2, 1), 1)]), slot_count: 2 };
    assert_eq!(result, Some(vec![Some(expected)]));
}

#[test]
fn pitched_slot_order_follows_lanes_not_keys() {
    let lanes = lanes_of(&[((2, 5), 0), ((1, 5), 1)]);
    let accesses = accesses_of(&[((2, 5), &[3], 1), ((1, 5), &[3], 1)]);
    let result = pitched_gap_track_assignments(&[lanes], &[accesses], 2, 2, never_overlap);
    let expected = PitchedGapTracks { slots: slots_of(&[((2, 5), 0), ((1, 5), 1)]), slot_count: 2 };
    assert_eq!(result, Some(vec![Some(expected)]));
}

#[test]
fn pitched_overlap_questions_come_in_key_order() {
    let lanes = lanes_of(&[((4, 9), 0), ((3, 2), 1), ((8, 0), 2)]);
    let accesses = accesses_of(&[((4, 9), &[1], 1), ((3, 2), &[2], 1), ((8, 0), &[3], 1)]);
    let result = pitched_gap_track_assignments(&[lanes], &[accesses], 2, 2, |_, a, b| {
        assert!(a < b);
        false
    });
    let expected = PitchedGapTracks { slots: slots_of(&[((4, 9), 0), ((3, 2), 0), ((8, 0), 0)]), slot_count: 1 };
    assert_eq!(result, Some(vec![Some(expected)]));
}

#[test]
fn pitched_overlap_questions_name_their_gap() {
    let lanes = lanes_of(&[((1, 1), 0), ((2, 1), 1)]);
    let accesses = accesses_of(&[((1, 1), &[1], 1), ((2, 1), &[2], 1)]);
    let result = pitched_gap_track_assignments(
        &[lanes.clone(), lanes],
        &[accesses.clone(), accesses],
        3,
        3,
        |gap, _, _| gap == 0,
    );
    let apart = PitchedGapTracks { slots: slots_of(&[((1, 1), 0), ((2, 1), 1)]), slot_count: 2 };
    let together = PitchedGapTracks { slots: slots_of(&[((1, 1), 0), ((2, 1), 0)]), slot_count: 1 };
    assert_eq!(result, Some(vec![Some(apart), Some(together)]));
}

#[test]
fn pitched_gap_with_one_track_gets_no_slots() {
    let single = lanes_of(&[((1, 1), 0)]);
    let single_access = accesses_of(&[((1, 1), &[1], 1)]);
    let pair = lanes_of(&[((9, 1), 0), ((9, 2), 1)]);
    let pair_access = accesses_of(&[((9, 1), &[1], 1), ((9, 2), &[2], 1)]);
    let result = pitched_gap_track_assignments(&[single, pair], &[single_access, pair_access], 3, 3, never_overlap);
    let expected = PitchedGapTracks { slots: slots_of(&[((9, 1), 0), ((9, 2), 0)]), slot_count: 1 };
    assert_eq!(result, Some(vec![None, Some(expected)]));
}

#[test]
fn pitched_assignment_without_any_slots_is_none() {
    let single = lanes_of(&[((1, 1), 0)]);
    let single_access = accesses_of(&[((1, 1), &[1], 1)]);
    let empty = BTreeMap::new();
    let result = pitched_gap_track_assignments(&[single, empty], &[single_access, BTreeMap::new()], 3, 3, never_overlap);
    assert_eq!(result, None);
}

#[test]
fn pitched_assignment_rejects_missing_access() {
    let lanes = lanes_of(&[((1, 1), 0), ((2, 1), 1)]);
    let accesses = accesses_of(&[((1, 1), &[1], 1)]);
    assert_eq!(pitched_gap_track_assignments(&[lanes], &[accesses], 2, 2, never_overlap), None);
}

#[test]
fn pitched_assignment_rejects_mismatched_shapes() {
    let lanes = lanes_of(&[((1, 1), 0), ((2, 1), 1)]);
    let accesses = accesses_of(&[((1, 1), &[1], 1), ((2, 1), &[2], 1)]);
    let fits = pitched_gap_track_assignments(&[lanes.clone()], &[accesses.clone()], 2, 2, never_overlap);
    assert!(fits.is_some());
    assert_eq!(pitched_gap_track_assignments(&[lanes.clone()], &[accesses.clone(), accesses.clone()], 2, 2, never_overlap), None);
    assert_eq!(pitched_gap_track_assignments(&[lanes.clone()], &[accesses.clone()], 2, 3, never_overlap), None);
    assert_eq!(pitched_gap_track_assignments(&[lanes], &[accesses], 1, 1, never_overlap), None);
}

#[test]
fn pitched_assignment_rejects_too_many_tracks() {
    let entries: Vec<(PitchedTrackKey, usize)> = (0..1025u32).map(|net| ((net, 0u64), net as usize)).collect();
    let lanes = lanes_of(&entries);
    let accesses: BTreeMap<PitchedTrackKey, PitchedTrackAccess> =
        (0..1025u32).map(|net| ((net, 0u64), access(&[net], 1))).collect();
    assert_eq!(pitched_gap_track_assignments(&[lanes], &[accesses], 2, 2, never_overlap), None);
}

#[test]
fn pitched_interval_budget_is_shared_by_gaps() {
    let lanes = lanes_of(&[((1, 1), 0), ((2, 1), 1)]);
    let small = accesses_of(&[((1, 1), &[1], 3000), ((2, 1), &[2], 3000)]);
    let large = accesses_of(&[((1, 1), &[1], 4000), ((2, 1), &[2], 3000)]);
    let alone_small = pitched_gap_track_assignments(&[lanes.clone()], &[small.clone()], 2, 2, never_overlap);
    let alone_large = pitched_gap_track_assignments(&[lanes.clone()], &[large.clone()], 2, 2, never_overlap);
    assert!(alone_small.is_some());
    assert!(alone_large.is_some());
    let together = pitched_gap_track_assignments(&[lanes.clone(), lanes], &[small, large], 3, 3, never_overlap);
    assert_eq!(together, None);
}

#[test]
fn pitched_interval_budget_rejects_one_crowded_gap() {
    let lanes = lanes_of(&[((1, 1), 0), ((2, 1), 1)]);
    let crowded = accesses_of(&[((1, 1), &[1], 5000), ((2, 1), &[2], 5000)]);
    assert_eq!(pitched_gap_track_assignments(&[lanes], &[crowded], 2, 2, never_overlap), None);
}

/// The key of a track at abscissa `x`, signed zeros merged; none off the
/// finite line.
fn pitched_track_key(net: u32, x: f64) -> Option<PitchedTrackKey> {
    let canonical_x = if x == 0.0 { 0.0 } else { x };
    if x.is_finite() {
        Some((net, canonical_x.to_bits()))
    } else {
        None
    }
}

/// A track's vertical runs and edges, as a gap access holds them.
struct GapNetAccess {
    vertical: Vec<(f64, f64)>,
    edge_ids: BTreeSet<u32>,
}

fn gap_access(vertical: Vec<(f64, f64)>) -> GapNetAccess {
    GapNetAccess { vertical, edge_ids: BTreeSet::new() }
}

fn plain_accesses(accesses: &BTreeMap<PitchedTrackKey, GapNetAccess>) -> BTreeMap<PitchedTrackKey, PitchedTrackAccess> {
    accesses
        .iter()
        .map(|(key, access)| {
            (*key, PitchedTrackAccess { edge_ids: access.edge_ids.clone(), vertical_count: access.vertical.len() })
        })
        .collect()
}

fn runs_overlap(accesses: &BTreeMap<PitchedTrackKey, GapNetAccess>, a: PitchedTrackKey, b: PitchedTrackKey) -> bool {
    let (Some(left), Some(right)) = (accesses.get(&a), accesses.get(&b)) else {
        return false;
    };
    left.vertical.iter().any(|&(left_low, left_high)| {
        right.vertical.iter().any(|&(right_low, right_high)| left_low <= right_high && right_low <= left_high)
    })
}

fn assign(
    lanes: &BTreeMap<PitchedTrackKey, usize>,
    accesses: &BTreeMap<PitchedTrackKey, GapNetAccess>,
    work: &mut PitchedGapWork,
) -> Option<Option<PitchedGapTracks>> {
    let plain = plain_accesses(accesses);
    let overlap = |_gap: usize, a: PitchedTrackKey, b: PitchedTrackKey| runs_overlap(accesses, a, b);
    pitched_gap_track_assignment(0, lanes, &plain, &overlap, work)
}

#[test]
fn pitched_gap_tracks_reuse_only_closed_disjoint_vertical_accesses() {
    let keys = [
        pitched_track_key(10, 1.0).unwrap(),
        pitched_track_key(11, 2.0).unwrap(),
        pitched_track_key(12, 3.0).unwrap(),
    ];
    let lanes = BTreeMap::from([(keys[0], 0), (keys[1], 1), (keys[2], 2)]);
    let accesses = BTreeMap::from([
        (keys[0], gap_access(vec![(0.0, 10.0)])),
        (keys[1], gap_access(vec![(10.0, 20.0)])),
        (keys[2], gap_access(vec![(30.0, 40.0)])),
    ]);
    let assignment = assign(&lanes, &accesses, &mut PitchedGapWork::default()).unwrap().unwrap();

    assert_eq!(assignment.slot_count, 2);
    assert_ne!(assignment.slots[&keys[0]], assignment.slots[&keys[1]]);
    assert_eq!(assignment.slots[&keys[0]], assignment.slots[&keys[2]]);
    assert_eq!(
        assignment,
        assign(
            &BTreeMap::from([(keys[2], 2), (keys[1], 1), (keys[0], 0)]),
            &BTreeMap::from_iter(accesses.into_iter().rev()),
            &mut PitchedGapWork::default(),
        )
        .unwrap()
        .unwrap()
    );
}

#[test]
fn pitched_gap_tracks_of_one_net_may_share_a_physical_slot() {
    assert_eq!(pitched_track_key(10, -0.0), pitched_track_key(10, 0.0));
    let keys = [
        pitched_track_key(10, 1.0).unwrap(),
        pitched_track_key(10, 2.0).unwrap(),
        pitched_track_key(11, 3.0).unwrap(),
    ];
    let lanes = BTreeMap::from([(keys[0], 0), (keys[1], 1), (keys[2], 2)]);
    let accesses = BTreeMap::from([
        (keys[0], GapNetAccess { vertical: vec![(0.0, 20.0)], edge_ids: BTreeSet::from([1]) }),
        (keys[1], GapNetAccess { vertical: vec![(5.0, 15.0)], edge_ids: BTreeSet::from([2]) }),
        (keys[2], gap_access(vec![(10.0, 30.0)])),
    ]);

    let assignment = assign(&lanes, &accesses, &mut PitchedGapWork::default()).unwrap().unwrap();

    assert_eq!(assignment.slots[&keys[0]], assignment.slots[&keys[1]]);
    assert_ne!(assignment.slots[&keys[0]], assignment.slots[&keys[2]]);
    assert_eq!(assignment.slot_count, 2);
}

#[test]
fn pitched_gap_tracks_on_one_edge_advance_monotonically_even_for_one_net() {
    let keys = [pitched_track_key(10, 1.0).unwrap(), pitched_track_key(10, 2.0).unwrap()];
    let lanes = BTreeMap::from([(keys[0], 0), (keys[1], 1)]);
    let access = |vertical| GapNetAccess { vertical, edge_ids: BTreeSet::from([99]) };
    let accesses = BTreeMap::from([(keys[0], access(vec![(0.0, 10.0)])), (keys[1], access(vec![(20.0, 30.0)]))]);

    let assignment = assign(&lanes, &accesses, &mut PitchedGapWork::default()).unwrap().unwrap();

    assert!(assignment.slots[&keys[0]] < assignment.slots[&keys[1]]);
    assert_eq!(assignment.slot_count, 2);
}

#[test]
fn pitched_gap_track_assignment_fails_closed_at_exact_work_caps() {
    let keys = [pitched_track_key(10, 1.0).unwrap(), pitched_track_key(11, 2.0).unwrap()];
    let lanes = BTreeMap::from([(keys[0], 0), (keys[1], 1)]);
    let accesses = BTreeMap::from([(keys[0], gap_access(vec![(0.0, 1.0)])), (keys[1], gap_access(vec![(2.0, 3.0)]))]);
    let mut exact = PitchedGapWork {
        pairs: MAX_PITCHED_GAP_PAIRS - 1,
        interval_visits: MAX_PITCHED_GAP_INTERVAL_VISITS - 1,
        refinement_visits: 0,
    };
    assert!(assign(&lanes, &accesses, &mut exact).unwrap().is_some());
    let mut over_pairs = PitchedGapWork { pairs: MAX_PITCHED_GAP_PAIRS, ..PitchedGapWork::default() };
    assert!(assign(&lanes, &accesses, &mut over_pairs).is_none());
    let mut over_intervals =
        PitchedGapWork { interval_visits: MAX_PITCHED_GAP_INTERVAL_VISITS, ..PitchedGapWork::default() };
    assert!(assign(&lanes, &accesses, &mut over_intervals).is_none());
    let mut exact_refinement =
        PitchedGapWork { refinement_visits: MAX_PITCHED_GAP_REFINEMENT_VISITS - 2, ..PitchedGapWork::default() };
    assert!(assign(&lanes, &accesses, &mut exact_refinement).unwrap().is_some());
    let mut over_refinement =
        PitchedGapWork { refinement_visits: MAX_PITCHED_GAP_REFINEMENT_VISITS - 1, ..PitchedGapWork::default() };
    assert!(assign(&lanes, &accesses, &mut over_refinement).is_none());
}

#[test]
fn pitched_gap_assignment_charges_its_work() {
    let keys = [pitched_track_key(10, 1.0).unwrap(), pitched_track_key(11, 2.0).unwrap()];
    let lanes = BTreeMap::from([(keys[0], 0), (keys[1], 1)]);
    let accesses = BTreeMap::from([
        (keys[0], gap_access(vec![(0.0, 1.0), (4.0, 5.0)])),
        (keys[1], gap_access(vec![(2.0, 3.0), (6.0, 7.0), (8.0, 9.0)])),
    ]);
    let mut work = PitchedGapWork { pairs: 5, interval_visits: 7, refinement_visits: 11 };
    assert!(assign(&lanes, &accesses, &mut work).unwrap().is_some());
    assert_eq!(work, PitchedGapWork { pairs: 6, interval_visits: 13, refinement_visits: 13 });
}
