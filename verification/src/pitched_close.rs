//! Close pairs of pitched tracks: two tracks of different nets whose slots
//! lie closer than the pitch while their vertical runs overlap. Counting them
//! shares the interval budget of slot assignment. Gaps with the most close
//! pairs are the first candidates for pitched slots.
use vstd::prelude::*;
use std::collections::BTreeMap;
use crate::budget::MAX_PITCHED_GAP_INTERVAL_VISITS;
use crate::pitched_tracks::{
    gap_answers, is_track_oracle, key_before, lane_ordered_tracks, lemma_interval_prefix,
    lemma_reported_answer, lemma_track_keys_ordered, reported_answer, row_products, rows_products,
    sorted_tracks, track_order, vertical_counts, PitchedGapTracks, PitchedTrackAccess, PitchedTrackKey,
};

verus! {

broadcast use vstd::std_specs::btree::group_btree_axioms;

/// `slots_close` accepts every slot distance and always gives one answer to
/// each.
pub open spec fn is_distance_oracle<C: Fn(usize) -> bool>(slots_close: C) -> bool {
    &&& forall|d: usize| slots_close.requires((d,))
    &&& forall|d: usize, r1: bool, r2: bool|
        slots_close.ensures((d,), r1) && slots_close.ensures((d,), r2) ==> r1 == r2
}

/// What `slots_close` answers for two slots `d` apart: whether they lie
/// closer than the pitch.
pub open spec fn reported_close<C: Fn(usize) -> bool>(slots_close: C, d: usize) -> bool {
    choose|r: bool| slots_close.ensures((d,), r)
}

pub proof fn lemma_reported_close<C: Fn(usize) -> bool>(slots_close: C)
    requires
        is_distance_oracle(slots_close),
    ensures
        forall|d: usize, r: bool| slots_close.ensures((d,), r) ==> r == reported_close(slots_close, d),
{
    assert forall|d: usize, r: bool| slots_close.ensures((d,), r) implies r == reported_close(slots_close, d) by {
        let chosen = choose|c: bool| slots_close.ensures((d,), c);
        assert(slots_close.ensures((d,), chosen));
    }
}

/// How many slots lie between slots `a` and `b`.
pub open spec fn slot_distance(a: usize, b: usize) -> usize {
    if a >= b {
        (a - b) as usize
    } else {
        (b - a) as usize
    }
}

/// Two tracks are near when their slots lie closer than the pitch.
pub open spec fn slots_near<C: Fn(usize) -> bool>(slots_close: C, slots: Map<PitchedTrackKey, usize>) -> spec_fn(
    PitchedTrackKey,
    PitchedTrackKey,
) -> bool {
    |a: PitchedTrackKey, b: PitchedTrackKey| reported_close(slots_close, slot_distance(slots[a], slots[b]))
}

/// Tracks `i` and `j` of `order` are a close pair: they carry different
/// nets, and both `near` and `overlap` hold of them taken in key order.
pub open spec fn close_pair(
    order: Seq<PitchedTrackKey>,
    near: spec_fn(PitchedTrackKey, PitchedTrackKey) -> bool,
    overlap: spec_fn(PitchedTrackKey, PitchedTrackKey) -> bool,
    i: int,
    j: int,
) -> bool {
    &&& order[i].0 != order[j].0
    &&& if key_before(order[i], order[j]) {
        near(order[i], order[j]) && overlap(order[i], order[j])
    } else {
        near(order[j], order[i]) && overlap(order[j], order[i])
    }
}

/// The close pairs `(i, j)` with `i < j < end`.
pub open spec fn row_close(
    order: Seq<PitchedTrackKey>,
    near: spec_fn(PitchedTrackKey, PitchedTrackKey) -> bool,
    overlap: spec_fn(PitchedTrackKey, PitchedTrackKey) -> bool,
    i: int,
    end: int,
) -> nat
    decreases end - i,
{
    if end <= i + 1 {
        0
    } else {
        row_close(order, near, overlap, i, end - 1) + if close_pair(order, near, overlap, i, end - 1) {
            1nat
        } else {
            0nat
        }
    }
}

/// The close pairs `(i, j)` with `i < j` and `i < rows`.
pub open spec fn rows_close(
    order: Seq<PitchedTrackKey>,
    near: spec_fn(PitchedTrackKey, PitchedTrackKey) -> bool,
    overlap: spec_fn(PitchedTrackKey, PitchedTrackKey) -> bool,
    rows: int,
) -> nat
    decreases rows,
{
    if rows <= 0 {
        0
    } else {
        rows_close(order, near, overlap, rows - 1) + row_close(order, near, overlap, rows - 1, order.len() as int)
    }
}

/// `count`, capped at `usize::MAX`.
pub open spec fn capped(count: nat) -> usize {
    if count > usize::MAX {
        usize::MAX
    } else {
        count as usize
    }
}

/// The work of comparing the vertical runs of every pair of tracks of a gap
/// holding `slots`, after `visits`.
pub open spec fn gap_visits(
    slots: Map<PitchedTrackKey, usize>,
    access: Map<PitchedTrackKey, PitchedTrackAccess>,
    visits: nat,
) -> nat {
    visits + rows_products(vertical_counts(track_order(slots), access), slots.dom().len() as int)
}

/// Counting the close pairs of a gap holding `slots` succeeds: it has fewer
/// than two tracks, or every track has an access and the work stays within
/// the interval budget.
pub open spec fn gap_counted(
    slots: Map<PitchedTrackKey, usize>,
    access: Map<PitchedTrackKey, PitchedTrackAccess>,
    visits: nat,
) -> bool {
    slots.dom().len() < 2 || (slots.dom().subset_of(access.dom()) && gap_visits(slots, access, visits)
        <= MAX_PITCHED_GAP_INTERVAL_VISITS)
}

/// The close pairs among the tracks of `lanes`.
pub open spec fn tracks_close(
    lanes: Map<PitchedTrackKey, usize>,
    near: spec_fn(PitchedTrackKey, PitchedTrackKey) -> bool,
    overlap: spec_fn(PitchedTrackKey, PitchedTrackKey) -> bool,
) -> nat {
    rows_close(track_order(lanes), near, overlap, lanes.dom().len() as int)
}

/// The close pairs of a gap holding `slots`: their slots lie closer than the
/// pitch.
pub open spec fn gap_close<C: Fn(usize) -> bool, F: Fn(usize, PitchedTrackKey, PitchedTrackKey) -> bool>(
    gap: usize,
    slots: Map<PitchedTrackKey, usize>,
    slots_close: C,
    vertical_conflict: F,
) -> nat {
    tracks_close(slots, slots_near(slots_close, slots), gap_answers(vertical_conflict, gap))
}

/// Counts the close pairs among the tracks of `lanes` in gap `gap`,
/// charging one visit per pair of vertical runs compared to `visits`. On the
/// tracks of `lanes`, `near(gap, a, b)` answers `near_spec(a, b)`.
fn gap_close_pairs<N: Fn(usize, PitchedTrackKey, PitchedTrackKey) -> bool, F: Fn(usize, PitchedTrackKey, PitchedTrackKey) -> bool>(
    gap: usize,
    lanes: &BTreeMap<PitchedTrackKey, usize>,
    access: &BTreeMap<PitchedTrackKey, PitchedTrackAccess>,
    near: &N,
    Ghost(near_spec): Ghost<spec_fn(PitchedTrackKey, PitchedTrackKey) -> bool>,
    vertical_conflict: &F,
    visits: &mut usize,
) -> (count: Option<usize>)
    requires
        forall|a: PitchedTrackKey, b: PitchedTrackKey| near.requires((gap, a, b)),
        forall|a: PitchedTrackKey, b: PitchedTrackKey, r: bool|
            lanes@.contains_key(a) && lanes@.contains_key(b) && near.ensures((gap, a, b), r) ==> r == near_spec(a, b),
        is_track_oracle(*vertical_conflict),
        *old(visits) <= MAX_PITCHED_GAP_INTERVAL_VISITS,
    ensures
        count is Some <==> gap_counted(lanes@, access@, *old(visits) as nat),
        count matches Some(c) ==> {
            &&& c == capped(tracks_close(lanes@, near_spec, gap_answers(*vertical_conflict, gap)))
            &&& *final(visits) == gap_visits(lanes@, access@, *old(visits) as nat)
            &&& *final(visits) <= MAX_PITCHED_GAP_INTERVAL_VISITS
        },
{
    proof {
        lemma_track_keys_ordered();
        lemma_reported_answer(*vertical_conflict);
    }
    let ghost slots = lanes@;
    let ghost overlap = gap_answers(*vertical_conflict, gap);
    let n = lanes.len();
    let order = lane_ordered_tracks(lanes);
    let ghost counts_spec = vertical_counts(order@, access@);
    if n < 2 {
        proof {
            reveal_with_fuel(rows_products, 2);
            reveal_with_fuel(rows_close, 2);
        }
        return Some(0);
    }
    let mut counts: Vec<usize> = Vec::new();
    let mut k: usize = 0;
    while k < n
        invariant
            k <= n,
            2 <= n,
            n == order@.len(),
            n == slots.dom().len(),
            slots == lanes@,
            sorted_tracks(order@, slots),
            forall|i: int| 0 <= i < k ==> access@.contains_key(#[trigger] order@[i]),
            counts@.len() == k,
            forall|i: int| 0 <= i < k ==> #[trigger] counts@[i] == access@[order@[i]].vertical_count,
        decreases n - k,
    {
        match access.get(&order[k]) {
            None => {
                proof {
                    assert(slots.contains_key(order@[k as int]));
                    assert(!access@.contains_key(order@[k as int]));
                }
                return None;
            },
            Some(track) => {
                counts.push(track.vertical_count);
            },
        }
        k = k + 1;
    }
    proof {
        assert(slots.dom().subset_of(access@.dom())) by {
            assert forall|key: PitchedTrackKey| slots.dom().contains(key) implies access@.dom().contains(key) by {
                assert(order@.contains(key));
                let i = choose|i: int| 0 <= i < order@.len() && order@[i] == key;
                assert(access@.contains_key(order@[i]));
            }
        }
        assert(order@ == track_order(slots));
    }
    let ghost start = *visits as int;
    let mut found: usize = 0;
    let mut left: usize = 0;
    while left < n
        invariant
            left <= n,
            n == order@.len(),
            order@.no_duplicates(),
            forall|a: PitchedTrackKey, b: PitchedTrackKey| near.requires((gap, a, b)),
            forall|a: PitchedTrackKey, b: PitchedTrackKey, r: bool|
                slots.contains_key(a) && slots.contains_key(b) && near.ensures((gap, a, b), r) ==> r == near_spec(a, b),
            forall|g: usize, a: PitchedTrackKey, b: PitchedTrackKey, r: bool|
                vertical_conflict.ensures((g, a, b), r) ==> r == reported_answer(*vertical_conflict, g, a, b),
            is_track_oracle(*vertical_conflict),
            counts@.len() == n,
            forall|i: int| 0 <= i < n ==> #[trigger] counts@[i] == counts_spec[i],
            forall|i: int| 0 <= i < n ==> slots.contains_key(#[trigger] order@[i]),
            counts_spec == vertical_counts(order@, access@),
            slots == lanes@,
            n == slots.dom().len(),
            order@ == track_order(slots),
            overlap == gap_answers(*vertical_conflict, gap),
            start == *old(visits),
            *visits == start + rows_products(counts_spec, left as int),
            *visits <= MAX_PITCHED_GAP_INTERVAL_VISITS,
            found == capped(rows_close(order@, near_spec, overlap, left as int)),
        decreases n - left,
    {
        let mut right: usize = left + 1;
        proof {
            assert(row_products(counts_spec, left as int, right as int) == 0);
            assert(row_close(order@, near_spec, overlap, left as int, right as int) == 0);
        }
        while right < n
            invariant
                left < n,
                left + 1 <= right <= n,
                n == order@.len(),
                order@.no_duplicates(),
                forall|a: PitchedTrackKey, b: PitchedTrackKey| near.requires((gap, a, b)),
            forall|a: PitchedTrackKey, b: PitchedTrackKey, r: bool|
                slots.contains_key(a) && slots.contains_key(b) && near.ensures((gap, a, b), r) ==> r == near_spec(a, b),
                forall|g: usize, a: PitchedTrackKey, b: PitchedTrackKey, r: bool|
                    vertical_conflict.ensures((g, a, b), r) ==> r == reported_answer(*vertical_conflict, g, a, b),
                is_track_oracle(*vertical_conflict),
                counts@.len() == n,
                    forall|i: int| 0 <= i < n ==> #[trigger] counts@[i] == counts_spec[i],
                forall|i: int| 0 <= i < n ==> slots.contains_key(#[trigger] order@[i]),
                counts_spec == vertical_counts(order@, access@),
                slots == lanes@,
                n == slots.dom().len(),
                order@ == track_order(slots),
                    overlap == gap_answers(*vertical_conflict, gap),
                start == *old(visits),
                *visits == start + rows_products(counts_spec, left as int) + row_products(
                    counts_spec,
                    left as int,
                    right as int,
                ),
                *visits <= MAX_PITCHED_GAP_INTERVAL_VISITS,
                found == capped(
                    rows_close(order@, near_spec, overlap, left as int) + row_close(
                        order@,
                        near_spec,
                        overlap,
                        left as int,
                        right as int,
                    ),
                ),
            decreases n - right,
        {
            proof {
                lemma_interval_prefix(counts_spec, left as int, right + 1);
            }
            let product = match counts[left].checked_mul(counts[right]) {
                Some(product) => product,
                None => {
                    return None;
                },
            };
            let total = match visits.checked_add(product) {
                Some(total) => total,
                None => {
                    return None;
                },
            };
            if total > MAX_PITCHED_GAP_INTERVAL_VISITS {
                return None;
            }
            *visits = total;
            let a = order[left];
            let b = order[right];
            let close = if a.0 == b.0 {
                false
            } else if a.0 < b.0 || (a.0 == b.0 && a.1 < b.1) {
                near(gap, a, b) && vertical_conflict(gap, a, b)
            } else {
                near(gap, b, a) && vertical_conflict(gap, b, a)
            };
            proof {
                assert(slots.contains_key(order@[left as int]) && slots.contains_key(order@[right as int]));
                assert(close == close_pair(order@, near_spec, overlap, left as int, right as int));
            }
            if close {
                found = found.saturating_add(1);
            }
            right = right + 1;
        }
        left = left + 1;
    }
    Some(found)
}

/// Counts the close pairs of gap `gap`, which holds `tracks`: pairs whose
/// slots lie closer than the pitch, as `slots_close` reports for their
/// distance.
fn gap_close_vertical_pairs<C: Fn(usize) -> bool, F: Fn(usize, PitchedTrackKey, PitchedTrackKey) -> bool>(
    gap: usize,
    tracks: &PitchedGapTracks,
    access: &BTreeMap<PitchedTrackKey, PitchedTrackAccess>,
    slots_close: &C,
    vertical_conflict: &F,
    visits: &mut usize,
) -> (count: Option<usize>)
    requires
        is_distance_oracle(*slots_close),
        is_track_oracle(*vertical_conflict),
        *old(visits) <= MAX_PITCHED_GAP_INTERVAL_VISITS,
    ensures
        count is Some <==> gap_counted(tracks.slots@, access@, *old(visits) as nat),
        count matches Some(c) ==> {
            &&& c == capped(gap_close(gap, tracks.slots@, *slots_close, *vertical_conflict))
            &&& *final(visits) == gap_visits(tracks.slots@, access@, *old(visits) as nat)
            &&& *final(visits) <= MAX_PITCHED_GAP_INTERVAL_VISITS
        },
{
    let slots = &tracks.slots;
    let near = |_gap: usize, a: PitchedTrackKey, b: PitchedTrackKey| -> (r: bool)
        requires
            is_distance_oracle(slots_close),
        ensures
            slots@.contains_key(a) && slots@.contains_key(b) ==> r == reported_close(
                slots_close,
                slot_distance(slots@[a], slots@[b]),
            ),
        {
            proof {
                lemma_reported_close(slots_close);
            }
            match (slots.get(&a), slots.get(&b)) {
                (Some(x), Some(y)) => {
                    let distance = if *x >= *y {
                        *x - *y
                    } else {
                        *y - *x
                    };
                    slots_close(distance)
                },
                _ => false,
            }
        };
    gap_close_pairs(
        gap,
        slots,
        access,
        &near,
        Ghost(slots_near(*slots_close, tracks.slots@)),
        vertical_conflict,
        visits,
    )
}

/// Counting close pairs over the first `upto` gaps, from no work at all:
/// `None` as soon as one gap fails, otherwise the work spent and the close
/// pairs found. Gaps without slots are passed over.
pub open spec fn gaps_close<C: Fn(usize) -> bool, F: Fn(usize, PitchedTrackKey, PitchedTrackKey) -> bool>(
    assignments: Seq<Option<PitchedGapTracks>>,
    accesses: Seq<BTreeMap<PitchedTrackKey, PitchedTrackAccess>>,
    slots_close: C,
    vertical_conflict: F,
    upto: int,
) -> Option<(nat, nat)>
    decreases upto,
{
    if upto <= 0 {
        Some((0, 0))
    } else {
        match gaps_close(assignments, accesses, slots_close, vertical_conflict, upto - 1) {
            None => None,
            Some((visits, found)) => match assignments[upto - 1] {
                None => Some((visits, found)),
                Some(tracks) => if gap_counted(tracks.slots@, accesses[upto - 1]@, visits) {
                    Some(
                        (
                            gap_visits(tracks.slots@, accesses[upto - 1]@, visits),
                            found + gap_close((upto - 1) as usize, tracks.slots@, slots_close, vertical_conflict),
                        ),
                    )
                } else {
                    None
                },
            },
        }
    }
}

proof fn lemma_gaps_close_stays_failed<C: Fn(usize) -> bool, F: Fn(usize, PitchedTrackKey, PitchedTrackKey) -> bool>(
    assignments: Seq<Option<PitchedGapTracks>>,
    accesses: Seq<BTreeMap<PitchedTrackKey, PitchedTrackAccess>>,
    slots_close: C,
    vertical_conflict: F,
    upto: int,
    later: int,
)
    requires
        upto <= later,
        gaps_close(assignments, accesses, slots_close, vertical_conflict, upto) is None,
    ensures
        gaps_close(assignments, accesses, slots_close, vertical_conflict, later) is None,
    decreases later - upto,
{
    if upto < later {
        lemma_gaps_close_stays_failed(assignments, accesses, slots_close, vertical_conflict, upto, later - 1);
    }
}

/// Counts, over every gap that was given slots, the pairs of tracks of
/// different nets whose slots lie closer than the pitch while their vertical
/// runs overlap (see `gaps_close`); the count stops at `usize::MAX`.
///
/// `assignments[g]` and `accesses[g]` belong to gap `g`; there must be as
/// many of one as of the other, else `None`. `slots_close(d)` tells whether
/// two slots `d` apart lie closer than the pitch, and
/// `vertical_conflict(g, a, b)` whether the vertical runs of tracks `a` and
/// `b` (in key order) of gap `g` overlap. Comparing the runs of two tracks
/// costs the product of their numbers of runs, charged against
/// `MAX_PITCHED_GAP_INTERVAL_VISITS` over all gaps; the result is `None`
/// when that budget runs out or a track of a gap of two or more has no
/// access.
pub fn pitched_gap_close_vertical_pairs<C: Fn(usize) -> bool, F: Fn(usize, PitchedTrackKey, PitchedTrackKey) -> bool>(
    assignments: &[Option<PitchedGapTracks>],
    accesses: &[BTreeMap<PitchedTrackKey, PitchedTrackAccess>],
    slots_close: &C,
    vertical_conflict: &F,
) -> (result: Option<usize>)
    requires
        is_distance_oracle(*slots_close),
        is_track_oracle(*vertical_conflict),
    ensures
        result == (if assignments@.len() != accesses@.len() {
            None
        } else {
            match gaps_close(assignments@, accesses@, *slots_close, *vertical_conflict, assignments@.len() as int) {
                None => None,
                Some((_, found)) => Some(capped(found)),
            }
        }),
{
    let gaps = assignments.len();
    if gaps != accesses.len() {
        return None;
    }
    let mut visits: usize = 0;
    let mut found: usize = 0;
    let mut g: usize = 0;
    while g < gaps
        invariant
            g <= gaps,
            gaps == assignments@.len(),
            gaps == accesses@.len(),
            is_distance_oracle(*slots_close),
            is_track_oracle(*vertical_conflict),
            visits <= MAX_PITCHED_GAP_INTERVAL_VISITS,
            gaps_close(assignments@, accesses@, *slots_close, *vertical_conflict, g as int) matches Some((spent, count))
                && spent == visits && found == capped(count),
        decreases gaps - g,
    {
        match &assignments[g] {
            None => {},
            Some(tracks) => {
                match gap_close_vertical_pairs(g, tracks, &accesses[g], slots_close, vertical_conflict, &mut visits) {
                    Some(count) => {
                        found = found.saturating_add(count);
                    },
                    None => {
                        proof {
                            lemma_gaps_close_stays_failed(
                                assignments@,
                                accesses@,
                                *slots_close,
                                *vertical_conflict,
                                g + 1,
                                gaps as int,
                            );
                        }
                        return None;
                    },
                }
            },
        }
        g = g + 1;
    }
    Some(found)
}

/// Counting the close pairs gap by gap over the first `upto` gaps, from no
/// work at all: `None` as soon as one gap fails, otherwise the work spent and
/// the close pairs of each gap.
pub open spec fn gaps_current_close<N: Fn(usize, PitchedTrackKey, PitchedTrackKey) -> bool, F: Fn(
    usize,
    PitchedTrackKey,
    PitchedTrackKey,
) -> bool>(
    lanes: Seq<BTreeMap<PitchedTrackKey, usize>>,
    accesses: Seq<BTreeMap<PitchedTrackKey, PitchedTrackAccess>>,
    near: N,
    vertical_conflict: F,
    upto: int,
) -> Option<(nat, Seq<nat>)>
    decreases upto,
{
    if upto <= 0 {
        Some((0, Seq::empty()))
    } else {
        match gaps_current_close(lanes, accesses, near, vertical_conflict, upto - 1) {
            None => None,
            Some((visits, counts)) => {
                let gap = (upto - 1) as usize;
                if gap_counted(lanes[upto - 1]@, accesses[upto - 1]@, visits) {
                    Some(
                        (
                            gap_visits(lanes[upto - 1]@, accesses[upto - 1]@, visits),
                            counts.push(
                                tracks_close(lanes[upto - 1]@, gap_answers(near, gap), gap_answers(vertical_conflict, gap)),
                            ),
                        ),
                    )
                } else {
                    None
                }
            },
        }
    }
}

proof fn lemma_gaps_current_close_stays_failed<N: Fn(usize, PitchedTrackKey, PitchedTrackKey) -> bool, F: Fn(
    usize,
    PitchedTrackKey,
    PitchedTrackKey,
) -> bool>(
    lanes: Seq<BTreeMap<PitchedTrackKey, usize>>,
    accesses: Seq<BTreeMap<PitchedTrackKey, PitchedTrackAccess>>,
    near: N,
    vertical_conflict: F,
    upto: int,
    later: int,
)
    requires
        upto <= later,
        gaps_current_close(lanes, accesses, near, vertical_conflict, upto) is None,
    ensures
        gaps_current_close(lanes, accesses, near, vertical_conflict, later) is None,
    decreases later - upto,
{
    if upto < later {
        lemma_gaps_current_close_stays_failed(lanes, accesses, near, vertical_conflict, upto, later - 1);
    }
}

/// Counts, gap by gap, the pairs of current tracks of different nets that lie
/// closer than the pitch while their vertical runs overlap (see
/// `gaps_current_close`); each count stops at `usize::MAX`.
///
/// `lanes[g]` gives the tracks of gap `g` (by lane) and `accesses[g]` what
/// each of them carries; there must be as many of one as of the other, else
/// `None`. `near(g, a, b)` tells whether tracks `a` and `b` (in key order) of
/// gap `g` lie closer than the pitch, and `vertical_conflict(g, a, b)` whether
/// their vertical runs overlap. Work is charged as by
/// `pitched_gap_close_vertical_pairs`, and the result is `None` in the same
/// cases.
pub fn pitched_gap_current_close_gaps<N: Fn(usize, PitchedTrackKey, PitchedTrackKey) -> bool, F: Fn(
    usize,
    PitchedTrackKey,
    PitchedTrackKey,
) -> bool>(
    lanes: &[BTreeMap<PitchedTrackKey, usize>],
    accesses: &[BTreeMap<PitchedTrackKey, PitchedTrackAccess>],
    near: &N,
    vertical_conflict: &F,
) -> (result: Option<Vec<usize>>)
    requires
        is_track_oracle(*near),
        is_track_oracle(*vertical_conflict),
    ensures
        ({
            let outcome = gaps_current_close(lanes@, accesses@, *near, *vertical_conflict, lanes@.len() as int);
            &&& result is Some <==> lanes@.len() == accesses@.len() && outcome is Some
            &&& result matches Some(counts) ==> {
                &&& counts@.len() == lanes@.len()
                &&& forall|g: int| 0 <= g < counts@.len() ==> #[trigger] counts@[g] == capped(outcome->Some_0.1[g])
            }
        }),
{
    let gaps = lanes.len();
    if gaps != accesses.len() {
        return None;
    }
    proof {
        lemma_reported_answer(*near);
    }
    let mut visits: usize = 0;
    let mut counts: Vec<usize> = Vec::new();
    let mut g: usize = 0;
    while g < gaps
        invariant
            g <= gaps,
            gaps == lanes@.len(),
            gaps == accesses@.len(),
            is_track_oracle(*near),
            is_track_oracle(*vertical_conflict),
            forall|h: usize, a: PitchedTrackKey, b: PitchedTrackKey, r: bool|
                near.ensures((h, a, b), r) ==> r == reported_answer(*near, h, a, b),
            visits <= MAX_PITCHED_GAP_INTERVAL_VISITS,
            gaps_current_close(lanes@, accesses@, *near, *vertical_conflict, g as int) matches Some((spent, found))
                && spent == visits && found.len() == g && counts@.len() == g
                && forall|h: int| 0 <= h < g ==> #[trigger] counts@[h] == capped(found[h]),
        decreases gaps - g,
    {
        let ghost before = counts@;
        match gap_close_pairs(
            g,
            &lanes[g],
            &accesses[g],
            near,
            Ghost(gap_answers(*near, g)),
            vertical_conflict,
            &mut visits,
        ) {
            Some(count) => {
                counts.push(count);
                proof {
                    let found = gaps_current_close(lanes@, accesses@, *near, *vertical_conflict, g + 1)->Some_0.1;
                    assert forall|h: int| 0 <= h < g + 1 implies #[trigger] counts@[h] == capped(found[h]) by {
                        if h < g {
                            assert(counts@[h] == before[h]);
                        }
                    }
                }
            },
            None => {
                proof {
                    lemma_gaps_current_close_stays_failed(
                        lanes@,
                        accesses@,
                        *near,
                        *vertical_conflict,
                        g + 1,
                        gaps as int,
                    );
                }
                return None;
            },
        }
        g = g + 1;
    }
    Some(counts)
}

/// The rank of gap `gap` among candidates for pitched slots: its close pairs,
/// the order key of its width deficit, and the gap itself.
pub open spec fn gap_rank(close_counts: Seq<usize>, deficit_keys: Seq<u64>, gap: int) -> (usize, u64, usize) {
    (close_counts[gap], deficit_keys[gap], gap as usize)
}

/// Candidates with more close pairs come first, then those with a smaller
/// width deficit, then lower gaps.
pub open spec fn rank_before(a: (usize, u64, usize), b: (usize, u64, usize)) -> bool {
    a.0 > b.0 || (a.0 == b.0 && (a.1 < b.1 || (a.1 == b.1 && a.2 < b.2)))
}

pub open spec fn gap_before(close_counts: Seq<usize>, deficit_keys: Seq<u64>, g: int, h: int) -> bool {
    rank_before(gap_rank(close_counts, deficit_keys, g), gap_rank(close_counts, deficit_keys, h))
}

/// Gap `gap` was given slots.
pub open spec fn is_candidate(assignments: Seq<Option<PitchedGapTracks>>, gap: int) -> bool {
    0 <= gap < assignments.len() && assignments[gap] is Some
}

/// `retained` lists, in rank order, the first `maximum` of the gaps that were
/// given slots (all of them when there are fewer).
pub open spec fn retains_top(
    retained: Seq<usize>,
    assignments: Seq<Option<PitchedGapTracks>>,
    close_counts: Seq<usize>,
    deficit_keys: Seq<u64>,
    maximum: usize,
) -> bool {
    &&& retained.len() <= maximum
    &&& forall|i: int| 0 <= i < retained.len() ==> is_candidate(assignments, #[trigger] retained[i] as int)
    &&& forall|i: int, j: int|
        0 <= i < j < retained.len() ==> gap_before(
            close_counts,
            deficit_keys,
            #[trigger] retained[i] as int,
            #[trigger] retained[j] as int,
        )
    &&& forall|g: int|
        #[trigger] is_candidate(assignments, g) && !retained.contains(g as usize) ==> {
            &&& retained.len() == maximum
            &&& forall|i: int| 0 <= i < retained.len() ==> gap_before(close_counts, deficit_keys, #[trigger] retained[i] as int, g)
        }
}

/// The gaps that were given slots, in rank order.
fn ranked_candidates(
    assignments: &Vec<Option<PitchedGapTracks>>,
    close_counts: &[usize],
    deficit_keys: &[u64],
) -> (ranked: Vec<usize>)
    requires
        close_counts@.len() == assignments@.len(),
        deficit_keys@.len() == assignments@.len(),
    ensures
        forall|g: usize| ranked@.contains(g) <==> is_candidate(assignments@, g as int),
        forall|i: int, j: int|
            0 <= i < j < ranked@.len() ==> gap_before(
                close_counts@,
                deficit_keys@,
                #[trigger] ranked@[i] as int,
                #[trigger] ranked@[j] as int,
            ),
{
    let n = assignments.len();
    let ghost counts = close_counts@;
    let ghost keys = deficit_keys@;
    let mut ranked: Vec<usize> = Vec::new();
    let mut g: usize = 0;
    while g < n
        invariant
            g <= n,
            n == assignments@.len(),
            counts == close_counts@,
            keys == deficit_keys@,
            close_counts@.len() == n,
            deficit_keys@.len() == n,
            forall|k: int| 0 <= k < ranked@.len() ==> #[trigger] ranked@[k] < g,
            forall|x: usize| ranked@.contains(x) <==> x < g && is_candidate(assignments@, x as int),
            forall|i: int, j: int|
                0 <= i < j < ranked@.len() ==> gap_before(counts, keys, #[trigger] ranked@[i] as int, #[trigger] ranked@[j] as int),
        decreases n - g,
    {
        if assignments[g].is_some() {
            let count = close_counts[g];
            let key = deficit_keys[g];
            let mut position: usize = 0;
            while position < ranked.len() && (close_counts[ranked[position]] > count || (close_counts[ranked[position]]
                == count && (deficit_keys[ranked[position]] < key || (deficit_keys[ranked[position]] == key
                && ranked[position] < g))))
                invariant
                    g < n,
                    position <= ranked@.len(),
                    n == assignments@.len(),
                    close_counts@.len() == n,
                    deficit_keys@.len() == n,
                    counts == close_counts@,
                    keys == deficit_keys@,
                    count == counts[g as int],
                    key == keys[g as int],
                    forall|k: int| 0 <= k < ranked@.len() ==> #[trigger] ranked@[k] < g,
                    forall|k: int| 0 <= k < position ==> gap_before(counts, keys, #[trigger] ranked@[k] as int, g as int),
                decreases ranked@.len() - position,
            {
                position = position + 1;
            }
            let ghost before = ranked@;
            assert forall|k: int| position <= k < before.len() implies gap_before(
                counts,
                keys,
                g as int,
                #[trigger] before[k] as int,
            ) by {
                if k > position {
                    assert(gap_before(counts, keys, before[position as int] as int, before[k] as int));
                }
            }
            ranked.insert(position, g);
            proof {
                assert forall|x: usize| ranked@.contains(x) <==> x < g + 1 && is_candidate(assignments@, x as int) by {
                    if ranked@.contains(x) {
                        let k = choose|k: int| 0 <= k < ranked@.len() && ranked@[k] == x;
                        if k < position {
                            assert(before[k] == x && before.contains(x));
                        } else if k > position {
                            assert(before[k - 1] == x && before.contains(x));
                        }
                    }
                    if x < g + 1 && is_candidate(assignments@, x as int) {
                        if x == g {
                            assert(ranked@[position as int] == x);
                        } else {
                            assert(before.contains(x));
                            let k = choose|k: int| 0 <= k < before.len() && before[k] == x;
                            if k < position {
                                assert(ranked@[k] == x);
                            } else {
                                assert(ranked@[k + 1] == x);
                            }
                        }
                    }
                }
                assert forall|i: int, j: int| 0 <= i < j < ranked@.len() implies gap_before(
                    counts,
                    keys,
                    #[trigger] ranked@[i] as int,
                    #[trigger] ranked@[j] as int,
                ) by {
                    if j < position {
                        assert(ranked@[i] == before[i] && ranked@[j] == before[j]);
                    } else if i > position {
                        assert(ranked@[i] == before[i - 1] && ranked@[j] == before[j - 1]);
                    } else if i < position && j > position {
                        assert(ranked@[i] == before[i] && ranked@[j] == before[j - 1]);
                        assert(gap_before(counts, keys, before[i] as int, g as int));
                    } else if i == position {
                        assert(ranked@[j] == before[j - 1]);
                    } else {
                        assert(ranked@[i] == before[i]);
                    }
                }
                assert forall|k: int| 0 <= k < ranked@.len() implies #[trigger] ranked@[k] < g + 1 by {
                    if k < position {
                        assert(ranked@[k] == before[k]);
                    } else if k > position {
                        assert(ranked@[k] == before[k - 1]);
                    }
                }
            }
        } else {
            proof {
                assert forall|x: usize| ranked@.contains(x) <==> x < g + 1 && is_candidate(assignments@, x as int) by {
                    if ranked@.contains(x) {
                        let k = choose|k: int| 0 <= k < ranked@.len() && ranked@[k] == x;
                        assert(ranked@[k] < g);
                    }
                }
            }
        }
        g = g + 1;
    }
    ranked
}

/// Keeps pitched slots for the best `maximum_candidates` gaps only: gaps are
/// ranked by `gap_rank` (more close pairs first, then the smaller width
/// deficit by its order key in `deficit_keys`, then the lower gap), the
/// first `maximum_candidates` keep their slots and the others lose them. The
/// retained gaps come back in rank order.
///
/// `None`, leaving `assignments` as it was, when `close_counts` or
/// `deficit_keys` does not hold one entry per gap, when `maximum_candidates`
/// is zero, or when no gap was given slots.
pub fn retain_top_pitched_gap_candidates(
    assignments: &mut Vec<Option<PitchedGapTracks>>,
    close_counts: &[usize],
    deficit_keys: &[u64],
    maximum_candidates: usize,
) -> (retained: Option<Vec<usize>>)
    ensures
        retained is None <==> (close_counts@.len() != old(assignments)@.len() || deficit_keys@.len() != old(
            assignments,
        )@.len() || maximum_candidates == 0 || forall|g: int|
            0 <= g < old(assignments)@.len() ==> !(#[trigger] is_candidate(old(assignments)@, g))),
        retained is None ==> final(assignments)@ == old(assignments)@,
        retained matches Some(kept) ==> {
            &&& retains_top(kept@, old(assignments)@, close_counts@, deficit_keys@, maximum_candidates)
            &&& final(assignments)@.len() == old(assignments)@.len()
            &&& forall|g: int|
                0 <= g < old(assignments)@.len() ==> #[trigger] final(assignments)@[g] == if kept@.contains(g as usize) {
                    old(assignments)@[g]
                } else {
                    None
                }
        },
{
    let n = assignments.len();
    if close_counts.len() != n || deficit_keys.len() != n || maximum_candidates == 0 {
        return None;
    }
    let ranked = ranked_candidates(assignments, close_counts, deficit_keys);
    let ghost start = assignments@;
    let ghost counts = close_counts@;
    let ghost keys = deficit_keys@;
    proof {
        assert(ranked@.no_duplicates()) by {
            assert forall|i: int, j: int| 0 <= i < ranked@.len() && 0 <= j < ranked@.len() && i != j implies ranked@[i]
                != ranked@[j] by {
                if i < j {
                    assert(gap_before(counts, keys, ranked@[i] as int, ranked@[j] as int));
                } else {
                    assert(gap_before(counts, keys, ranked@[j] as int, ranked@[i] as int));
                }
            }
        }
        assert forall|k: int| 0 <= k < ranked@.len() implies #[trigger] is_candidate(start, ranked@[k] as int) by {
            assert(ranked@.contains(ranked@[k]));
        }
    }
    let keep = if ranked.len() < maximum_candidates {
        ranked.len()
    } else {
        maximum_candidates
    };
    let mut k: usize = keep;
    while k < ranked.len()
        invariant
            keep <= k <= ranked@.len(),
            n == start.len(),
            assignments@.len() == n,
            ranked@.no_duplicates(),
            forall|t: int| 0 <= t < ranked@.len() ==> #[trigger] is_candidate(start, ranked@[t] as int),
            forall|g: int|
                0 <= g < n ==> #[trigger] assignments@[g] == if ranked@.subrange(keep as int, k as int).contains(
                    g as usize,
                ) {
                    None
                } else {
                    start[g]
                },
        decreases ranked@.len() - k,
    {
        let gap = ranked[k];
        proof {
            assert(is_candidate(start, ranked@[k as int] as int));
        }
        assignments.set(gap, None);
        proof {
            let done = ranked@.subrange(keep as int, k as int);
            let next = ranked@.subrange(keep as int, k + 1);
            assert(next =~= done.push(gap));
            assert forall|g: int| 0 <= g < n implies #[trigger] assignments@[g] == if next.contains(g as usize) {
                None
            } else {
                start[g]
            } by {
                if g != gap as int {
                    if next.contains(g as usize) {
                        let t = choose|t: int| 0 <= t < next.len() && next[t] == g as usize;
                        assert(done[t] == g as usize);
                    }
                } else {
                    assert(next[next.len() - 1] == gap);
                }
            }
        }
        k = k + 1;
    }
    let mut kept: Vec<usize> = Vec::new();
    let mut i: usize = 0;
    while i < keep
        invariant
            i <= keep <= ranked@.len(),
            kept@ == ranked@.take(i as int),
        decreases keep - i,
    {
        kept.push(ranked[i]);
        proof {
            assert(ranked@.take(i + 1) =~= ranked@.take(i as int).push(ranked@[i as int]));
        }
        i = i + 1;
    }
    proof {
        let tail = ranked@.subrange(keep as int, ranked@.len() as int);
        assert forall|g: int| 0 <= g < n implies #[trigger] assignments@[g] == if kept@.contains(g as usize) {
            start[g]
        } else {
            None
        } by {
            if kept@.contains(g as usize) {
                let a = choose|a: int| 0 <= a < kept@.len() && kept@[a] == g as usize;
                if tail.contains(g as usize) {
                    let b = choose|b: int| 0 <= b < tail.len() && tail[b] == g as usize;
                    assert(ranked@[a] == ranked@[keep + b]);
                }
            } else {
                if is_candidate(start, g) {
                    assert(ranked@.contains(g as usize));
                    let t = choose|t: int| 0 <= t < ranked@.len() && ranked@[t] == g as usize;
                    if t < keep {
                        assert(kept@[t] == g as usize);
                    } else {
                        assert(tail[t - keep] == g as usize);
                    }
                } else {
                    if tail.contains(g as usize) {
                        let b = choose|b: int| 0 <= b < tail.len() && tail[b] == g as usize;
                        assert(is_candidate(start, ranked@[keep + b] as int));
                    }
                }
            }
        }
        assert forall|g: int| #[trigger] is_candidate(start, g) && !kept@.contains(g as usize) implies {
            &&& kept@.len() == maximum_candidates
            &&& forall|a: int| 0 <= a < kept@.len() ==> gap_before(counts, keys, #[trigger] kept@[a] as int, g)
        } by {
            assert(ranked@.contains(g as usize));
            let t = choose|t: int| 0 <= t < ranked@.len() && ranked@[t] == g as usize;
            if t < keep {
                assert(kept@[t] == g as usize);
            }
            assert forall|a: int| 0 <= a < kept@.len() implies gap_before(counts, keys, #[trigger] kept@[a] as int, g) by {
                assert(kept@[a] == ranked@[a]);
            }
        }
        if kept@.len() == 0 {
            assert forall|g: int| 0 <= g < n implies !(#[trigger] is_candidate(start, g)) by {
                if is_candidate(start, g) {
                    assert(ranked@.contains(g as usize));
                }
            }
            assert(assignments@ =~= start);
        } else {
            assert(is_candidate(start, kept@[0] as int));
        }
    }
    if kept.len() == 0 {
        return None;
    }
    Some(kept)
}

} // verus!
