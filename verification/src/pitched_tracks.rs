//! Pitched gap tracks: the vertical tracks of a gap share physical slots
//! when they can never be active at one ordinate. Slots are handed out first
//! fit, in lane order, under work budgets shared by all gaps.
use vstd::prelude::*;
use std::collections::BTreeMap;
use std::collections::BTreeSet;
use vstd::std_specs::iter::IteratorSpec;
use crate::budget::{
    MAX_PITCHED_GAP_INTERVAL_VISITS, MAX_PITCHED_GAP_NETS, MAX_PITCHED_GAP_PAIRS,
    MAX_PITCHED_GAP_REFINEMENT_VISITS,
};
use crate::graph::{EdgeId, NetId};
use crate::ordered::{set_keys, sort_track_keys, track_before};

verus! {

broadcast use vstd::std_specs::btree::group_btree_axioms;

/// A vertical track of a gap: the net it carries and the key of its
/// abscissa.
pub type PitchedTrackKey = (NetId, u64);

/// What slot assignment reads of one track's use of a gap: the edges that
/// run on it and how many vertical runs it holds.
#[derive(Clone, Debug)]
pub struct PitchedTrackAccess {
    pub edge_ids: BTreeSet<EdgeId>,
    pub vertical_count: usize,
}

/// The physical slot of each track of a gap, and how many slots there are.
#[derive(Clone, Debug, PartialEq)]
pub struct PitchedGapTracks {
    pub slots: BTreeMap<PitchedTrackKey, usize>,
    pub slot_count: usize,
}

/// Work spent so far on pitched slot assignment, over all gaps.
#[derive(Clone, Copy, Debug, Default, PartialEq, Eq)]
pub struct PitchedGapWork {
    pub pairs: usize,
    pub interval_visits: usize,
    pub refinement_visits: usize,
}

/// The rank by which the tracks of a gap are colored: lane, then net, then
/// abscissa key.
pub open spec fn track_rank(lanes: Map<PitchedTrackKey, usize>, key: PitchedTrackKey) -> (usize, NetId, u64) {
    (lanes[key], key.0, key.1)
}

/// `order` lists the tracks of `lanes` by increasing rank.
pub open spec fn sorted_tracks(order: Seq<PitchedTrackKey>, lanes: Map<PitchedTrackKey, usize>) -> bool {
    &&& forall|k: int| 0 <= k < order.len() ==> lanes.contains_key(#[trigger] order[k])
    &&& forall|key: PitchedTrackKey| #[trigger] lanes.contains_key(key) ==> order.contains(key)
    &&& forall|i: int, j: int|
        0 <= i < j < order.len() ==> track_before(
            track_rank(lanes, #[trigger] order[i]),
            track_rank(lanes, #[trigger] order[j]),
        )
}

/// The tracks of `lanes` by increasing rank.
pub open spec fn track_order(lanes: Map<PitchedTrackKey, usize>) -> Seq<PitchedTrackKey> {
    choose|order: Seq<PitchedTrackKey>| sorted_tracks(order, lanes)
}

/// `rows` is the `n` by `n` matrix of `relation` on track positions.
pub open spec fn is_relation_matrix(rows: Seq<Vec<bool>>, n: int, relation: spec_fn(int, int) -> bool) -> bool {
    &&& rows.len() == n
    &&& forall|i: int| 0 <= i < n ==> (#[trigger] rows[i])@.len() == n
    &&& forall|i: int, j: int| 0 <= i < n && 0 <= j < n ==> #[trigger] rows[i]@[j] == relation(i, j)
}

/// The largest color of an earlier track (below position `upto`) that
/// shares an edge with track `t`, plus one; zero when there is none.
pub open spec fn min_color(colors: Seq<nat>, shares: spec_fn(int, int) -> bool, t: int, upto: int) -> nat
    decreases upto,
{
    if upto <= 0 {
        0
    } else {
        let before = min_color(colors, shares, t, upto - 1);
        if shares(t, upto - 1) && colors[upto - 1] + 1 > before {
            colors[upto - 1] + 1
        } else {
            before
        }
    }
}

/// The tracks among the first `k` with color `c`, in order.
pub open spec fn color_members(colors: Seq<nat>, c: nat, k: int) -> Seq<int>
    decreases k,
{
    if k <= 0 {
        Seq::empty()
    } else if colors[k - 1] == c {
        color_members(colors, c, k - 1).push(k - 1)
    } else {
        color_members(colors, c, k - 1)
    }
}

/// Scans `members[i ..]` for a conflict with track `t`: whether none
/// conflicts, and how many members were visited (up to and including the
/// first conflicting one).
pub open spec fn member_scan(members: Seq<int>, conflicts: spec_fn(int, int) -> bool, t: int, i: int) -> (bool, nat)
    decreases members.len() - i,
{
    if i < 0 || i >= members.len() {
        (true, 0)
    } else if conflicts(t, members[i]) {
        (false, 1)
    } else {
        let rest = member_scan(members, conflicts, t, i + 1);
        (rest.0, rest.1 + 1)
    }
}

/// The first color from `c` on whose members all agree with track `t`
/// (`count`, a new color, when there is none), and the members visited.
pub open spec fn color_search(colors: Seq<nat>, conflicts: spec_fn(int, int) -> bool, t: int, c: nat, count: nat) -> (
    nat,
    nat,
)
    decreases count - c,
{
    if c >= count {
        (count, 0)
    } else {
        let scan = member_scan(color_members(colors, c, t), conflicts, t, 0);
        if scan.0 {
            (c, scan.1)
        } else {
            let rest = color_search(colors, conflicts, t, c + 1, count);
            (rest.0, scan.1 + rest.1)
        }
    }
}

/// First-fit coloring of the first `k` tracks in order: each track takes the
/// first color above every earlier track it shares an edge with whose members
/// it does not conflict with. Returns the colors, the number of colors, and
/// the visits charged: one per earlier track and one per member scanned.
pub open spec fn first_fit(shares: spec_fn(int, int) -> bool, conflicts: spec_fn(int, int) -> bool, k: int) -> (Seq<nat>, nat, nat)
    decreases k,
{
    if k <= 0 {
        (Seq::empty(), 0, 0)
    } else {
        let before = first_fit(shares, conflicts, k - 1);
        let t = k - 1;
        let lowest = min_color(before.0, shares, t, t);
        let search = color_search(before.0, conflicts, t, lowest, before.1);
        (
            before.0.push(search.0),
            if search.0 == before.1 {
                before.1 + 1
            } else {
                before.1
            },
            (before.2 + t + search.1) as nat,
        )
    }
}

proof fn lemma_first_fit_grows(shares: spec_fn(int, int) -> bool, conflicts: spec_fn(int, int) -> bool, k: int, m: int)
    requires
        0 <= k <= m,
    ensures
        first_fit(shares, conflicts, k).2 <= first_fit(shares, conflicts, m).2,
        first_fit(shares, conflicts, m).0.len() == m,
    decreases m - k,
{
    if k < m {
        lemma_first_fit_grows(shares, conflicts, k, m - 1);
    } else {
        lemma_first_fit_len(shares, conflicts, m);
    }
}

proof fn lemma_first_fit_len(shares: spec_fn(int, int) -> bool, conflicts: spec_fn(int, int) -> bool, k: int)
    requires
        0 <= k,
    ensures
        first_fit(shares, conflicts, k).0.len() == k,
        forall|p: int| 0 <= p < k ==> #[trigger] first_fit(shares, conflicts, k).0[p] < first_fit(shares, conflicts, k).1,
        first_fit(shares, conflicts, k).1 <= k,
    decreases k,
{
    if k > 0 {
        lemma_first_fit_len(shares, conflicts, k - 1);
        let before = first_fit(shares, conflicts, k - 1);
        let t = k - 1;
        let lowest = min_color(before.0, shares, t, t);
        lemma_color_search_bounds(before.0, conflicts, t, lowest, before.1);
        let after = first_fit(shares, conflicts, k);
        assert forall|p: int| 0 <= p < k implies #[trigger] after.0[p] < after.1 by {
            if p < t {
                assert(after.0[p] == before.0[p]);
            }
        }
    }
}

proof fn lemma_color_search_bounds(colors: Seq<nat>, conflicts: spec_fn(int, int) -> bool, t: int, c: nat, count: nat)
    ensures
        color_search(colors, conflicts, t, c, count).0 <= count,
    decreases count - c,
{
    if c < count {
        lemma_color_search_bounds(colors, conflicts, t, c + 1, count);
    }
}

proof fn lemma_color_members(colors: Seq<nat>, c: nat, k: int)
    requires
        0 <= k <= colors.len(),
    ensures
        forall|i: int| 0 <= i < color_members(colors, c, k).len() ==> 0 <= #[trigger] color_members(colors, c, k)[i] < k,
    decreases k,
{
    if k > 0 {
        lemma_color_members(colors, c, k - 1);
        let before = color_members(colors, c, k - 1);
        if colors[k - 1] == c {
            assert forall|i: int| 0 <= i < before.push(k - 1).len() implies 0 <= #[trigger] before.push(k - 1)[i] < k by {
                if i < before.len() {
                    assert(before.push(k - 1)[i] == before[i]);
                }
            }
        }
    }
}

proof fn lemma_color_members_prefix(colors: Seq<nat>, longer: Seq<nat>, c: nat, k: int)
    requires
        0 <= k <= colors.len() <= longer.len(),
        forall|p: int| 0 <= p < colors.len() ==> colors[p] == longer[p],
    ensures
        color_members(longer, c, k) == color_members(colors, c, k),
    decreases k,
{
    if k > 0 {
        lemma_color_members_prefix(colors, longer, c, k - 1);
    }
}

proof fn lemma_color_members_push(colors: Seq<nat>, chosen: nat, c: nat)
    ensures
        color_members(colors.push(chosen), c, colors.len() + 1int) == if chosen == c {
            color_members(colors, c, colors.len() as int).push(colors.len() as int)
        } else {
            color_members(colors, c, colors.len() as int)
        },
{
    lemma_color_members_prefix(colors, colors.push(chosen), c, colors.len() as int);
}

proof fn lemma_member_scan_bound(list: Seq<int>, conflicts: spec_fn(int, int) -> bool, t: int, i: int)
    requires
        0 <= i < list.len(),
    ensures
        member_scan(list, conflicts, t, i).1 >= 1,
{
}

proof fn lemma_color_search_after(colors: Seq<nat>, conflicts: spec_fn(int, int) -> bool, t: int, c: nat, count: nat)
    requires
        c < count,
    ensures
        color_search(colors, conflicts, t, c, count).1 >= member_scan(color_members(colors, c, t), conflicts, t, 0).1,
{
}

proof fn lemma_step_visits_exceed(
    shares: spec_fn(int, int) -> bool,
    conflicts: spec_fn(int, int) -> bool,
    n: int,
    t: int,
    start: int,
    amount: int,
)
    requires
        0 <= t < n,
        amount <= t + color_search(
            first_fit(shares, conflicts, t).0,
            conflicts,
            t,
            min_color(first_fit(shares, conflicts, t).0, shares, t, t),
            first_fit(shares, conflicts, t).1,
        ).1,
        start + first_fit(shares, conflicts, t).2 + amount > MAX_PITCHED_GAP_REFINEMENT_VISITS,
    ensures
        start + first_fit(shares, conflicts, n).2 > MAX_PITCHED_GAP_REFINEMENT_VISITS,
{
    lemma_first_fit_grows(shares, conflicts, t + 1, n);
}

/// First-fit colors of the `n` tracks (see `first_fit`), charging one visit
/// per earlier track and per member scanned to `visits`; `None` as soon as
/// the visits pass `MAX_PITCHED_GAP_REFINEMENT_VISITS`.
fn first_fit_colors(
    n: usize,
    shares: &Vec<Vec<bool>>,
    conflicts: &Vec<Vec<bool>>,
    Ghost(sh): Ghost<spec_fn(int, int) -> bool>,
    Ghost(cf): Ghost<spec_fn(int, int) -> bool>,
    visits: &mut usize,
) -> (result: Option<(Vec<usize>, usize)>)
    requires
        is_relation_matrix(shares@, n as int, sh),
        is_relation_matrix(conflicts@, n as int, cf),
        *old(visits) <= MAX_PITCHED_GAP_REFINEMENT_VISITS,
    ensures
        ({
            let spec = first_fit(sh, cf, n as int);
            &&& result is Some <==> *old(visits) + spec.2 <= MAX_PITCHED_GAP_REFINEMENT_VISITS
            &&& result matches Some((colors, count)) ==> {
                &&& colors@.len() == n
                &&& forall|p: int| 0 <= p < n ==> #[trigger] colors@[p] == spec.0[p]
                &&& count == spec.1
                &&& *final(visits) == *old(visits) + spec.2
            }
        }),
{
    let ghost start = *visits as int;
    let ghost nn = n as int;
        let mut members: Vec<Vec<usize>> = Vec::new();
    let mut color_of: Vec<usize> = Vec::new();
    let mut t: usize = 0;
    while t < n
        invariant
            t <= n,
            is_relation_matrix(shares@, n as int, sh),
            is_relation_matrix(conflicts@, n as int, cf),
            nn == n,
            start == *old(visits),
            color_of@.len() == t,
            forall|p: int| 0 <= p < t ==> #[trigger] color_of@[p] == first_fit(sh, cf, t as int).0[p],
            members@.len() == first_fit(sh, cf, t as int).1,
            forall|c: int|
                0 <= c < members@.len() ==> (#[trigger] members@[c])@.map_values(|m: usize| m as int)
                    == color_members(first_fit(sh, cf, t as int).0, c as nat, t as int),
            *visits == start + first_fit(sh, cf, t as int).2,
            *visits <= MAX_PITCHED_GAP_REFINEMENT_VISITS,
        decreases n - t,
    {
        let ghost state = first_fit(sh, cf, t as int);
        proof {
            lemma_first_fit_len(sh, cf, t as int);
        }
        let ghost step_start = *visits as int;
        let mut lowest: usize = 0;
        let mut p: usize = 0;
        while p < t
            invariant
                p <= t,
                t < n,
                is_relation_matrix(shares@, n as int, sh),
                is_relation_matrix(conflicts@, n as int, cf),
                start == *old(visits),
                nn == n,
                state == first_fit(sh, cf, t as int),
                step_start == start + state.2,
                color_of@.len() == t,
                forall|q: int| 0 <= q < t ==> #[trigger] color_of@[q] == state.0[q],
                forall|q: int| 0 <= q < t ==> state.0[q] < state.1,
                state.1 <= t,
                state.0.len() == t,
                lowest == min_color(state.0, sh, t as int, p as int),
                *visits == step_start + p,
                *visits <= MAX_PITCHED_GAP_REFINEMENT_VISITS,
            decreases t - p,
        {
            if *visits >= MAX_PITCHED_GAP_REFINEMENT_VISITS {
                proof {
                    lemma_step_visits_exceed(sh, cf, nn, t as int, start, p + 1);
                }
                return None;
            }
            *visits = *visits + 1;
            if shares[t][p] {
                let above = color_of[p] + 1;
                if above > lowest {
                    lowest = above;
                }
            }
            p = p + 1;
        }
        let ghost count = state.1;
        let ghost search_goal = color_search(state.0, cf, t as int, lowest as nat, count);
        let mut chosen = members.len();
        let mut c = lowest;
        let mut found = false;
        let ghost mut scanned: nat = 0;
        while c < members.len() && !found
            invariant
                t < n,
                is_relation_matrix(shares@, n as int, sh),
                is_relation_matrix(conflicts@, n as int, cf),
                start == *old(visits),
                nn == n,
                state == first_fit(sh, cf, t as int),
                step_start == start + state.2,
                count == state.1,
                lowest as nat == min_color(state.0, sh, t as int, t as int),
                search_goal == color_search(state.0, cf, t as int, lowest as nat, count),
                members@.len() == count,
                forall|d: int|
                    0 <= d < members@.len() ==> (#[trigger] members@[d])@.map_values(|m: usize| m as int)
                        == color_members(state.0, d as nat, t as int),
                state.0.len() == t,
                scanned >= 0,
                !found ==> search_goal == (
                    color_search(state.0, cf, t as int, c as nat, count).0,
                    (scanned + color_search(state.0, cf, t as int, c as nat, count).1) as nat,
                ),
                found ==> search_goal == (chosen as nat, scanned) && chosen < count,
                !found ==> chosen == count,
                *visits == step_start + t + scanned,
                *visits <= MAX_PITCHED_GAP_REFINEMENT_VISITS,
            decreases count - c + (if found {
                0int
            } else {
                1int
            }),
        {
            let ghost list = color_members(state.0, c as nat, t as int);
            proof {
                lemma_color_members(state.0, c as nat, t as int);
            }
            let mut compatible = true;
            let mut i: usize = 0;
            while i < members[c].len() && compatible
                invariant
                    t < n,
                    is_relation_matrix(conflicts@, n as int, cf),
                    is_relation_matrix(shares@, n as int, sh),
                    start == *old(visits),
                    nn == n,
                    c < members@.len(),
                    members@[c as int]@.map_values(|m: usize| m as int) == list,
                    forall|j: int| 0 <= j < list.len() ==> 0 <= #[trigger] list[j] < t,
                    compatible ==> member_scan(list, cf, t as int, 0) == (
                        member_scan(list, cf, t as int, i as int).0,
                        (i + member_scan(list, cf, t as int, i as int).1) as nat,
                    ),
                    !compatible ==> member_scan(list, cf, t as int, 0) == (false, i as nat),
                    i <= list.len(),
                    state == first_fit(sh, cf, t as int),
                    step_start == start + state.2,
                    count == state.1,
                    c < count,
                    !found,
                    lowest as nat == min_color(state.0, sh, t as int, t as int),
                    search_goal == color_search(state.0, cf, t as int, lowest as nat, count),
                    search_goal == (
                        color_search(state.0, cf, t as int, c as nat, count).0,
                        (scanned + color_search(state.0, cf, t as int, c as nat, count).1) as nat,
                    ),
                    list == color_members(state.0, c as nat, t as int),
                    scanned >= 0,
                    *visits == step_start + t + scanned + i,
                    *visits <= MAX_PITCHED_GAP_REFINEMENT_VISITS,
                decreases list.len() - i + (if compatible {
                    1int
                } else {
                    0int
                }),
            {
                if *visits >= MAX_PITCHED_GAP_REFINEMENT_VISITS {
                    proof {
                        lemma_member_scan_bound(list, cf, t as int, i as int);
                        lemma_color_search_after(state.0, cf, t as int, c as nat, count);
                        lemma_step_visits_exceed(sh, cf, nn, t as int, start, t + scanned + i + 1);
                    }
                    return None;
                }
                *visits = *visits + 1;
                let member = members[c][i];
                assert(member as int == list[i as int]);
                if conflicts[t][member] {
                    compatible = false;
                }
                i = i + 1;
            }
            proof {
                if compatible {
                    assert(member_scan(list, cf, t as int, i as int) == (true, 0nat));
                }
                scanned = (scanned + i) as nat;
            }
            if compatible {
                chosen = c;
                found = true;
            } else {
                c = c + 1;
            }
        }
        proof {
            if !found {
                assert(color_search(state.0, cf, t as int, c as nat, count) == (count, 0nat));
            }
        }
        let ghost old_members = members@;
        if chosen == members.len() {
            members.push(Vec::new());
        }
        members[chosen].push(t);
        color_of.push(chosen);
        proof {
            let next = first_fit(sh, cf, t + 1);
            assert(next.0 == state.0.push(chosen as nat));
            assert forall|d: int| 0 <= d < members@.len() implies (#[trigger] members@[d])@.map_values(
                |m: usize| m as int,
            ) == color_members(next.0, d as nat, t + 1) by {
                lemma_color_members_push(state.0, chosen as nat, d as nat);
                if d == chosen {
                    if d < count {
                        assert(members@[d]@ == old_members[d]@.push(t));
                    } else {
                        assert(color_members(state.0, d as nat, t as int) =~= Seq::<int>::empty()) by {
                            lemma_color_members_absent(state.0, d as nat, t as int);
                        }
                    }
                    assert(members@[d]@.map_values(|m: usize| m as int) =~= color_members(state.0, d as nat, t as int).push(
                        t as int,
                    ));
                } else {
                    assert(members@[d] == old_members[d]);
                }
            }
            assert forall|q: int| 0 <= q < t + 1 implies #[trigger] color_of@[q] == next.0[q] by {}
        }
        t = t + 1;
    }
    Some((color_of, members.len()))
}

proof fn lemma_color_members_absent(colors: Seq<nat>, c: nat, k: int)
    requires
        0 <= k <= colors.len(),
        forall|p: int| 0 <= p < k ==> colors[p] != c,
    ensures
        color_members(colors, c, k) == Seq::<int>::empty(),
    decreases k,
{
    if k > 0 {
        lemma_color_members_absent(colors, c, k - 1);
    }
}

/// The listing of a gap's tracks by rank is unique.
pub proof fn lemma_sorted_tracks_unique(a: Seq<PitchedTrackKey>, b: Seq<PitchedTrackKey>, lanes: Map<PitchedTrackKey, usize>)
    requires
        sorted_tracks(a, lanes),
        sorted_tracks(b, lanes),
    ensures
        a == b,
    decreases a.len(),
{
    if a.len() == 0 {
        if b.len() > 0 {
            assert(lanes.contains_key(b[0]));
            assert(a.contains(b[0]));
        }
        assert(a =~= b);
    } else {
        assert(lanes.contains_key(a[0]));
        assert(b.contains(a[0]));
        let j = choose|j: int| 0 <= j < b.len() && b[j] == a[0];
        assert(lanes.contains_key(b[0]));
        assert(a.contains(b[0]));
        let i = choose|i: int| 0 <= i < a.len() && a[i] == b[0];
        if i > 0 && j > 0 {
            assert(track_before(track_rank(lanes, a[0]), track_rank(lanes, a[i])));
            assert(track_before(track_rank(lanes, b[0]), track_rank(lanes, b[j])));
        }
        assert(a[0] == b[0]);
        let first = a[0];
        let rest = lanes.remove(first);
        let ta = a.drop_first();
        let tb = b.drop_first();
        assert forall|k: int| 0 <= k < ta.len() implies rest.contains_key(#[trigger] ta[k]) by {
            assert(ta[k] == a[k + 1]);
            assert(track_before(track_rank(lanes, a[0]), track_rank(lanes, a[k + 1])));
        }
        assert forall|k: int| 0 <= k < tb.len() implies rest.contains_key(#[trigger] tb[k]) by {
            assert(tb[k] == b[k + 1]);
            assert(track_before(track_rank(lanes, b[0]), track_rank(lanes, b[k + 1])));
        }
        assert forall|key: PitchedTrackKey| #[trigger] rest.contains_key(key) implies ta.contains(key) by {
            let k = choose|k: int| 0 <= k < a.len() && a[k] == key;
            assert(ta[k - 1] == key);
        }
        assert forall|key: PitchedTrackKey| #[trigger] rest.contains_key(key) implies tb.contains(key) by {
            assert(b.contains(key));
            let k = choose|k: int| 0 <= k < b.len() && b[k] == key;
            assert(tb[k - 1] == key);
        }
        assert forall|x: int, y: int| 0 <= x < y < ta.len() implies track_before(
            track_rank(rest, #[trigger] ta[x]),
            track_rank(rest, #[trigger] ta[y]),
        ) by {
            assert(ta[x] == a[x + 1] && ta[y] == a[y + 1]);
            assert(track_before(track_rank(lanes, a[x + 1]), track_rank(lanes, a[y + 1])));
        }
        assert forall|x: int, y: int| 0 <= x < y < tb.len() implies track_before(
            track_rank(rest, #[trigger] tb[x]),
            track_rank(rest, #[trigger] tb[y]),
        ) by {
            assert(tb[x] == b[x + 1] && tb[y] == b[y + 1]);
            assert(track_before(track_rank(lanes, b[x + 1]), track_rank(lanes, b[y + 1])));
        }
        lemma_sorted_tracks_unique(ta, tb, rest);
        assert(a =~= b) by {
            assert forall|k: int| 0 <= k < a.len() implies a[k] == b[k] by {
                if k > 0 {
                    assert(a[k] == ta[k - 1] && b[k] == tb[k - 1]);
                }
            }
        }
    }
}

/// Track keys obey the ordering laws that the map specifications rest on.
pub(crate) proof fn lemma_track_keys_ordered()
    ensures
        vstd::laws_cmp::obeys_cmp::<PitchedTrackKey>(),
        vstd::std_specs::btree::key_obeys_cmp_spec::<PitchedTrackKey>(),
{
    broadcast use vstd::laws_cmp::group_laws_cmp;
    assert(vstd::laws_cmp::obeys_cmp::<(u32, u64)>());
}

/// The tracks of a gap by increasing rank (lane, net, abscissa key).
pub(crate) fn lane_ordered_tracks(lanes: &BTreeMap<PitchedTrackKey, usize>) -> (order: Vec<PitchedTrackKey>)
    ensures
        sorted_tracks(order@, lanes@),
        order@ == track_order(lanes@),
        order@.len() == lanes@.len(),
        order@.no_duplicates(),
{
    proof {
        lemma_track_keys_ordered();
    }
    let iter = lanes.iter();
    let ghost rem = iter.remaining();
    let mut items: Vec<(usize, u32, u64)> = Vec::new();
    for entry in it: iter
        invariant
            it.seq() == rem,
            rem.len() == lanes@.dom().len(),
            rem.no_duplicates(),
            forall|i: int|
                0 <= i < rem.len() ==> #[trigger] lanes@.contains_key(*rem[i].0) && lanes@[*rem[i].0]
                    == *rem[i].1,
            forall|k: PitchedTrackKey| #[trigger] lanes@.contains_key(k) ==> rem.contains((&k, &lanes@[k])),
            items@.len() == it.index(),
            forall|i: int| 0 <= i < it.index() ==> #[trigger] items@[i] == (*rem[i].1, rem[i].0.0, rem[i].0.1),
    {
        let (key, lane) = entry;
        items.push((*lane, key.0, key.1));
    }
    assert(items@.no_duplicates()) by {
        assert forall|a: int, b: int| 0 <= a < items@.len() && 0 <= b < items@.len() && a != b implies items@[a] != items@[b] by {
            if items@[a] == items@[b] {
                assert(*rem[a].0 == *rem[b].0);
                assert(lanes@.contains_key(*rem[a].0));
                assert(rem[a] == rem[b]);
            }
        }
    }
    let sorted = sort_track_keys(&items);
    let mut order: Vec<PitchedTrackKey> = Vec::new();
    let mut index: usize = 0;
    while index < sorted.len()
        invariant
            index <= sorted@.len(),
            order@.len() == index,
            forall|t: int| 0 <= t < index ==> #[trigger] order@[t] == (sorted@[t].1, sorted@[t].2),
        decreases sorted@.len() - index,
    {
        order.push((sorted[index].1, sorted[index].2));
        index = index + 1;
    }
    proof {
        assert forall|t: int| 0 <= t < sorted@.len() implies lanes@.contains_key(#[trigger] order@[t])
            && sorted@[t] == track_rank(lanes@, order@[t]) by {
            assert(sorted@.contains(sorted@[t]));
            assert(items@.contains(sorted@[t]));
            let i = choose|i: int| 0 <= i < items@.len() && items@[i] == sorted@[t];
            assert(lanes@.contains_key(*rem[i].0));
        }
        assert forall|key: PitchedTrackKey| #[trigger] lanes@.contains_key(key) implies order@.contains(key) by {
            assert(rem.contains((&key, &lanes@[key])));
            let i = choose|i: int| 0 <= i < rem.len() && rem[i] == (&key, &lanes@[key]);
            assert(items@[i] == (lanes@[key], key.0, key.1));
            assert(items@.contains(items@[i]));
            assert(sorted@.contains(items@[i]));
            let t = choose|t: int| 0 <= t < sorted@.len() && sorted@[t] == items@[i];
            assert(order@[t] == key);
        }
        assert forall|i: int, j: int| 0 <= i < j < order@.len() implies track_before(
            track_rank(lanes@, #[trigger] order@[i]),
            track_rank(lanes@, #[trigger] order@[j]),
        ) by {
            assert(track_before(sorted@[i], sorted@[j]));
        }
        assert(sorted_tracks(order@, lanes@));
        lemma_sorted_tracks_unique(order@, track_order(lanes@), lanes@);
        assert(order@.no_duplicates()) by {
            assert forall|a: int, b: int| 0 <= a < order@.len() && 0 <= b < order@.len() && a != b implies order@[a] != order@[b] by {
                if a < b {
                    assert(track_before(track_rank(lanes@, order@[a]), track_rank(lanes@, order@[b])));
                } else {
                    assert(track_before(track_rank(lanes@, order@[b]), track_rank(lanes@, order@[a])));
                }
            }
        }
    }
    order
}

/// `question` answers every question about two tracks of a gap, and always
/// gives one answer to each.
pub open spec fn is_track_oracle<F: Fn(usize, PitchedTrackKey, PitchedTrackKey) -> bool>(question: F) -> bool {
    &&& forall|gap: usize, a: PitchedTrackKey, b: PitchedTrackKey| question.requires((gap, a, b))
    &&& forall|gap: usize, a: PitchedTrackKey, b: PitchedTrackKey, r1: bool, r2: bool|
        question.ensures((gap, a, b), r1) && question.ensures((gap, a, b), r2) ==> r1 == r2
}

/// What `question` answers for tracks `a` and `b` of gap `gap`.
pub open spec fn reported_answer<F: Fn(usize, PitchedTrackKey, PitchedTrackKey) -> bool>(
    question: F,
    gap: usize,
    a: PitchedTrackKey,
    b: PitchedTrackKey,
) -> bool {
    choose|r: bool| question.ensures((gap, a, b), r)
}

/// All the answers of `question` for one gap.
pub open spec fn gap_answers<F: Fn(usize, PitchedTrackKey, PitchedTrackKey) -> bool>(question: F, gap: usize) -> spec_fn(
    PitchedTrackKey,
    PitchedTrackKey,
) -> bool {
    |a: PitchedTrackKey, b: PitchedTrackKey| reported_answer(question, gap, a, b)
}

pub proof fn lemma_reported_answer<F: Fn(usize, PitchedTrackKey, PitchedTrackKey) -> bool>(question: F)
    requires
        is_track_oracle(question),
    ensures
        forall|gap: usize, a: PitchedTrackKey, b: PitchedTrackKey, r: bool|
            question.ensures((gap, a, b), r) ==> r == reported_answer(question, gap, a, b),
{
    assert forall|gap: usize, a: PitchedTrackKey, b: PitchedTrackKey, r: bool|
        question.ensures((gap, a, b), r) implies r == reported_answer(question, gap, a, b) by {
        let chosen = choose|c: bool| question.ensures((gap, a, b), c);
        assert(question.ensures((gap, a, b), chosen));
    }
}

/// Key order of tracks: by net, then by abscissa key.
pub open spec fn key_before(a: PitchedTrackKey, b: PitchedTrackKey) -> bool {
    a.0 < b.0 || (a.0 == b.0 && a.1 < b.1)
}

/// Tracks `i` and `j` of `order` are distinct and carry a common edge.
pub open spec fn tracks_share(
    order: Seq<PitchedTrackKey>,
    accesses: Map<PitchedTrackKey, PitchedTrackAccess>,
    i: int,
    j: int,
) -> bool {
    i != j && !accesses[order[i]].edge_ids@.disjoint(accesses[order[j]].edge_ids@)
}

pub open spec fn shares_of(order: Seq<PitchedTrackKey>, accesses: Map<PitchedTrackKey, PitchedTrackAccess>) -> spec_fn(
    int,
    int,
) -> bool {
    |i: int, j: int| tracks_share(order, accesses, i, j)
}

/// Tracks `i` and `j` of `order` cannot take one slot: they carry a common
/// edge, or they belong to different nets and their vertical runs overlap,
/// as `overlap` reports for the pair taken in key order.
pub open spec fn tracks_conflict(
    order: Seq<PitchedTrackKey>,
    accesses: Map<PitchedTrackKey, PitchedTrackAccess>,
    overlap: spec_fn(PitchedTrackKey, PitchedTrackKey) -> bool,
    i: int,
    j: int,
) -> bool {
    &&& i != j
    &&& (tracks_share(order, accesses, i, j) || (order[i].0 != order[j].0 && if key_before(order[i], order[j]) {
        overlap(order[i], order[j])
    } else {
        overlap(order[j], order[i])
    }))
}

pub open spec fn conflicts_of(
    order: Seq<PitchedTrackKey>,
    accesses: Map<PitchedTrackKey, PitchedTrackAccess>,
    overlap: spec_fn(PitchedTrackKey, PitchedTrackKey) -> bool,
) -> spec_fn(int, int) -> bool {
    |i: int, j: int| tracks_conflict(order, accesses, overlap, i, j)
}

/// The number of vertical runs of each track of `order`.
pub open spec fn vertical_counts(order: Seq<PitchedTrackKey>, accesses: Map<PitchedTrackKey, PitchedTrackAccess>) -> Seq<nat> {
    Seq::new(order.len(), |i: int| accesses[order[i]].vertical_count as nat)
}

/// Sum of `counts[i] * counts[j]` over `i < j < end`.
pub open spec fn row_products(counts: Seq<nat>, i: int, end: int) -> nat
    decreases end - i,
{
    if end <= i + 1 {
        0
    } else {
        row_products(counts, i, end - 1) + counts[i] * counts[end - 1]
    }
}

/// Sum of `counts[i] * counts[j]` over `i < j` with `i < rows`: the interval
/// comparisons of all pairs whose first track is among the first `rows`.
pub open spec fn rows_products(counts: Seq<nat>, rows: int) -> nat
    decreases rows,
{
    if rows <= 0 {
        0
    } else {
        rows_products(counts, rows - 1) + row_products(counts, rows - 1, counts.len() as int)
    }
}

pub(crate) proof fn lemma_row_products_grow(counts: Seq<nat>, i: int, a: int, b: int)
    requires
        a <= b,
    ensures
        row_products(counts, i, a) <= row_products(counts, i, b),
    decreases b - a,
{
    if a < b {
        lemma_row_products_grow(counts, i, a, b - 1);
    }
}

pub(crate) proof fn lemma_rows_products_grow(counts: Seq<nat>, a: int, b: int)
    requires
        a <= b,
    ensures
        rows_products(counts, a) <= rows_products(counts, b),
    decreases b - a,
{
    if a < b {
        lemma_rows_products_grow(counts, a, b - 1);
    }
}

/// The comparisons counted up to pair `(left, end - 1)` never exceed those of
/// all pairs.
pub(crate) proof fn lemma_interval_prefix(counts: Seq<nat>, left: int, end: int)
    requires
        0 <= left < counts.len(),
        end <= counts.len(),
    ensures
        rows_products(counts, left) + row_products(counts, left, end) <= rows_products(counts, counts.len() as int),
{
    lemma_row_products_grow(counts, left, end, counts.len() as int);
    lemma_rows_products_grow(counts, left + 1, counts.len() as int);
}

proof fn lemma_relations_symmetric(
    order: Seq<PitchedTrackKey>,
    accesses: Map<PitchedTrackKey, PitchedTrackAccess>,
    overlap: spec_fn(PitchedTrackKey, PitchedTrackKey) -> bool,
    i: int,
    j: int,
)
    requires
        0 <= i < order.len(),
        0 <= j < order.len(),
        order.no_duplicates(),
    ensures
        tracks_share(order, accesses, i, j) == tracks_share(order, accesses, j, i),
        tracks_conflict(order, accesses, overlap, i, j) == tracks_conflict(order, accesses, overlap, j, i),
{
    let a = accesses[order[i]].edge_ids@;
    let b = accesses[order[j]].edge_ids@;
    assert(a.disjoint(b) == b.disjoint(a));
    if i != j {
        assert(order[i] != order[j]);
    }
}

/// Whether two lists of edges have an edge in common.
fn lists_meet(a: &Vec<EdgeId>, b: &Vec<EdgeId>) -> (meet: bool)
    ensures
        meet == !a@.to_set().disjoint(b@.to_set()),
{
    let mut i: usize = 0;
    while i < a.len()
        invariant
            i <= a@.len(),
            forall|x: int, y: int| 0 <= x < i && 0 <= y < b@.len() ==> a@[x] != b@[y],
        decreases a@.len() - i,
    {
        let mut j: usize = 0;
        while j < b.len()
            invariant
                i < a@.len(),
                j <= b@.len(),
                forall|x: int, y: int| 0 <= x < i && 0 <= y < b@.len() ==> a@[x] != b@[y],
                forall|y: int| 0 <= y < j ==> a@[i as int] != b@[y],
            decreases b@.len() - j,
        {
            if a[i] == b[j] {
                assert(a@.to_set().contains(a@[i as int]));
                assert(b@.to_set().contains(b@[j as int]));
                return true;
            }
            j = j + 1;
        }
        i = i + 1;
    }
    assert forall|e: EdgeId| a@.to_set().contains(e) implies !b@.to_set().contains(e) by {
        let x = choose|x: int| 0 <= x < a@.len() && a@[x] == e;
        if b@.to_set().contains(e) {
            let y = choose|y: int| 0 <= y < b@.len() && b@[y] == e;
            assert(a@[x] != b@[y]);
        }
    }
    false
}

/// The share and conflict matrices of the tracks of `order`, charging one
/// visit per pair of vertical runs compared to `visits`; `None` as soon as
/// the visits pass `MAX_PITCHED_GAP_INTERVAL_VISITS`.
fn track_relations<F: Fn(usize, PitchedTrackKey, PitchedTrackKey) -> bool>(
    gap: usize,
    order: &Vec<PitchedTrackKey>,
    edges: &Vec<Vec<EdgeId>>,
    counts: &Vec<usize>,
    Ghost(accesses): Ghost<Map<PitchedTrackKey, PitchedTrackAccess>>,
    vertical_conflict: &F,
    visits: &mut usize,
) -> (result: Option<(Vec<Vec<bool>>, Vec<Vec<bool>>)>)
    requires
        is_track_oracle(*vertical_conflict),
        order@.no_duplicates(),
        edges@.len() == order@.len(),
        counts@.len() == order@.len(),
        forall|i: int| 0 <= i < order@.len() ==> (#[trigger] edges@[i])@.to_set() == accesses[order@[i]].edge_ids@,
        forall|i: int| 0 <= i < order@.len() ==> #[trigger] counts@[i] == accesses[order@[i]].vertical_count,
        *old(visits) <= MAX_PITCHED_GAP_INTERVAL_VISITS,
    ensures
        ({
            let total = *old(visits) + rows_products(vertical_counts(order@, accesses), order@.len() as int);
            &&& result is Some <==> total <= MAX_PITCHED_GAP_INTERVAL_VISITS
            &&& result matches Some((shares, conflicts)) ==> {
                &&& is_relation_matrix(shares@, order@.len() as int, shares_of(order@, accesses))
                &&& is_relation_matrix(
                    conflicts@,
                    order@.len() as int,
                    conflicts_of(order@, accesses, gap_answers(*vertical_conflict, gap)),
                )
                &&& *final(visits) == total
            }
        }),
{
    let n = order.len();
    let ghost counts_spec = vertical_counts(order@, accesses);
    let ghost overlap = gap_answers(*vertical_conflict, gap);
    let ghost start = *visits as int;
    proof {
        lemma_reported_answer(*vertical_conflict);
    }
    let mut shares: Vec<Vec<bool>> = Vec::new();
    let mut conflicts: Vec<Vec<bool>> = Vec::new();
    let mut left: usize = 0;
    while left < n
        invariant
            left <= n,
            n == order@.len(),
            is_track_oracle(*vertical_conflict),
            forall|g: usize, a: PitchedTrackKey, b: PitchedTrackKey, r: bool|
                vertical_conflict.ensures((g, a, b), r) ==> r == reported_answer(*vertical_conflict, g, a, b),
            order@.no_duplicates(),
            edges@.len() == n,
            counts@.len() == n,
            forall|i: int| 0 <= i < n ==> (#[trigger] edges@[i])@.to_set() == accesses[order@[i]].edge_ids@,
            forall|i: int| 0 <= i < n ==> #[trigger] counts@[i] == accesses[order@[i]].vertical_count,
            counts_spec == vertical_counts(order@, accesses),
            overlap == gap_answers(*vertical_conflict, gap),
            start == *old(visits),
            shares@.len() == left,
            conflicts@.len() == left,
            forall|r: int| 0 <= r < left ==> (#[trigger] shares@[r])@.len() == n,
            forall|r: int| 0 <= r < left ==> (#[trigger] conflicts@[r])@.len() == n,
            forall|r: int, c: int|
                0 <= r < left && 0 <= c < n ==> #[trigger] shares@[r]@[c] == tracks_share(order@, accesses, r, c),
            forall|r: int, c: int|
                0 <= r < left && 0 <= c < n ==> #[trigger] conflicts@[r]@[c] == tracks_conflict(
                    order@,
                    accesses,
                    overlap,
                    r,
                    c,
                ),
            *visits == start + rows_products(counts_spec, left as int),
            *visits <= MAX_PITCHED_GAP_INTERVAL_VISITS,
        decreases n - left,
    {
        let mut share_row: Vec<bool> = Vec::new();
        let mut conflict_row: Vec<bool> = Vec::new();
        let mut right: usize = 0;
        while right < n
            invariant
                left < n,
                right <= n,
                n == order@.len(),
                forall|g: usize, a: PitchedTrackKey, b: PitchedTrackKey, r: bool|
                    vertical_conflict.ensures((g, a, b), r) ==> r == reported_answer(*vertical_conflict, g, a, b),
                is_track_oracle(*vertical_conflict),
                order@.no_duplicates(),
                edges@.len() == n,
                counts@.len() == n,
                forall|i: int| 0 <= i < n ==> (#[trigger] edges@[i])@.to_set() == accesses[order@[i]].edge_ids@,
                forall|i: int| 0 <= i < n ==> #[trigger] counts@[i] == accesses[order@[i]].vertical_count,
                counts_spec == vertical_counts(order@, accesses),
                overlap == gap_answers(*vertical_conflict, gap),
                start == *old(visits),
                shares@.len() == left,
                conflicts@.len() == left,
                forall|r: int| 0 <= r < left ==> (#[trigger] shares@[r])@.len() == n,
                forall|r: int| 0 <= r < left ==> (#[trigger] conflicts@[r])@.len() == n,
                forall|r: int, c: int|
                    0 <= r < left && 0 <= c < n ==> #[trigger] shares@[r]@[c] == tracks_share(order@, accesses, r, c),
                forall|r: int, c: int|
                    0 <= r < left && 0 <= c < n ==> #[trigger] conflicts@[r]@[c] == tracks_conflict(
                        order@,
                        accesses,
                        overlap,
                        r,
                        c,
                    ),
                share_row@.len() == right,
                conflict_row@.len() == right,
                forall|c: int| 0 <= c < right ==> #[trigger] share_row@[c] == tracks_share(order@, accesses, left as int, c),
                forall|c: int|
                    0 <= c < right ==> #[trigger] conflict_row@[c] == tracks_conflict(order@, accesses, overlap, left as int, c),
                *visits == start + rows_products(counts_spec, left as int) + row_products(counts_spec, left as int, right as int),
                *visits <= MAX_PITCHED_GAP_INTERVAL_VISITS,
            decreases n - right,
        {
            if right < left {
                proof {
                    lemma_relations_symmetric(order@, accesses, overlap, left as int, right as int);
                }
                share_row.push(shares[right][left]);
                conflict_row.push(conflicts[right][left]);
            } else if right == left {
                share_row.push(false);
                conflict_row.push(false);
            } else {
                proof {
                    lemma_interval_prefix(counts_spec, left as int, right + 1);
                    assert(counts_spec[left as int] == counts@[left as int]);
                    assert(counts_spec[right as int] == counts@[right as int]);
                }
                let product = match counts[left].checked_mul(counts[right]) {
                    Some(product) => product,
                    None => {
                        return None;
                    },
                };
                let total = match visits.checked_add(product) {
                    Some(total) => total,
                    None => {
                        return None;
                    },
                };
                if total > MAX_PITCHED_GAP_INTERVAL_VISITS {
                    return None;
                }
                *visits = total;
                let share = lists_meet(&edges[left], &edges[right]);
                let conflict = if share {
                    true
                } else if order[left].0 != order[right].0 {
                    let a = order[left];
                    let b = order[right];
                    if a.0 < b.0 || (a.0 == b.0 && a.1 < b.1) {
                        vertical_conflict(gap, a, b)
                    } else {
                        vertical_conflict(gap, b, a)
                    }
                } else {
                    false
                };
                proof {
                    assert(order@[left as int] != order@[right as int]);
                }
                share_row.push(share);
                conflict_row.push(conflict);
            }
            right = right + 1;
        }
        shares.push(share_row);
        conflicts.push(conflict_row);
        left = left + 1;
    }
    Some((shares, conflicts))
}

/// The slot of each track: track `order[i]` takes slot `colors[i]`.
pub open spec fn slots_of(order: Seq<PitchedTrackKey>, colors: Seq<nat>) -> Map<PitchedTrackKey, usize> {
    Map::new(|key: PitchedTrackKey| order.contains(key), |key: PitchedTrackKey| colors[order.index_of(key)] as usize)
}

/// The slots and slot count of an assignment, as plain values.
pub open spec fn tracks_view(tracks: Option<PitchedGapTracks>) -> Option<(Map<PitchedTrackKey, usize>, nat)> {
    match tracks {
        Some(tracks) => Some((tracks.slots@, tracks.slot_count as nat)),
        None => None,
    }
}

/// The outcome of assigning slots to the tracks of one gap, with `work`
/// spent before it: `None` when the gap has too many tracks, a track has no
/// access, or a budget runs out; otherwise the slots (none for a gap of
/// fewer than two tracks) and the work spent after it.
///
/// Tracks are colored first fit by rank (`first_fit` over `track_order`):
/// a track takes the lowest slot above every earlier track it shares an edge
/// with, among slots none of whose tracks conflicts with it, and opens a new
/// slot when there is none.
pub open spec fn gap_assignment(
    lanes: Map<PitchedTrackKey, usize>,
    accesses: Map<PitchedTrackKey, PitchedTrackAccess>,
    overlap: spec_fn(PitchedTrackKey, PitchedTrackKey) -> bool,
    work: PitchedGapWork,
) -> Option<(Option<(Map<PitchedTrackKey, usize>, nat)>, PitchedGapWork)> {
    let n = lanes.dom().len();
    if n < 2 {
        Some((None, work))
    } else {
        let order = track_order(lanes);
        let pairs = work.pairs + n * (n - 1) / 2;
        let intervals = work.interval_visits + rows_products(vertical_counts(order, accesses), n as int);
        let coloring = first_fit(shares_of(order, accesses), conflicts_of(order, accesses, overlap), n as int);
        let refinements = work.refinement_visits + coloring.2;
        if n > MAX_PITCHED_GAP_NETS || !lanes.dom().subset_of(accesses.dom()) || pairs > MAX_PITCHED_GAP_PAIRS
            || intervals > MAX_PITCHED_GAP_INTERVAL_VISITS || refinements > MAX_PITCHED_GAP_REFINEMENT_VISITS {
            None
        } else {
            Some(
                (
                    Some((slots_of(order, coloring.0), coloring.1)),
                    PitchedGapWork {
                        pairs: pairs as usize,
                        interval_visits: intervals as usize,
                        refinement_visits: refinements as usize,
                    },
                ),
            )
        }
    }
}

/// `result` and `work` are what `expected` describes.
pub open spec fn assignment_agrees(
    result: Option<Option<PitchedGapTracks>>,
    work: PitchedGapWork,
    expected: Option<(Option<(Map<PitchedTrackKey, usize>, nat)>, PitchedGapWork)>,
) -> bool {
    match expected {
        None => result is None,
        Some((slots, after)) => match result {
            Some(tracks) => tracks_view(tracks) == slots && work == after,
            None => false,
        },
    }
}

/// The work spent stays within every budget.
pub open spec fn within_budgets(work: PitchedGapWork) -> bool {
    &&& work.pairs <= MAX_PITCHED_GAP_PAIRS
    &&& work.interval_visits <= MAX_PITCHED_GAP_INTERVAL_VISITS
    &&& work.refinement_visits <= MAX_PITCHED_GAP_REFINEMENT_VISITS
}

/// Slots, when there are any, separate the tracks of the gap (see
/// `slots_separate`), put each track in the lowest slot it fits (see
/// `slots_lowest_fit`), and use every slot they count.
pub open spec fn separates_tracks(
    tracks: Option<PitchedGapTracks>,
    lanes: Map<PitchedTrackKey, usize>,
    accesses: Map<PitchedTrackKey, PitchedTrackAccess>,
    overlap: spec_fn(PitchedTrackKey, PitchedTrackKey) -> bool,
) -> bool {
    match tracks {
        Some(tracks) => slots_separate(tracks.slots@, tracks.slot_count as nat, lanes, accesses, overlap)
            && slots_lowest_fit(tracks.slots@, lanes, accesses, overlap) && slots_all_used(
            tracks.slots@,
            tracks.slot_count as nat,
        ),
        None => true,
    }
}

/// Assigns physical slots to the tracks of gap `gap` (see `gap_assignment`),
/// charging the work to `work`. `vertical_conflict(gap, a, b)` tells whether
/// the vertical runs of tracks `a` and `b` (in key order) overlap.
pub fn pitched_gap_track_assignment<F: Fn(usize, PitchedTrackKey, PitchedTrackKey) -> bool>(
    gap: usize,
    lanes: &BTreeMap<PitchedTrackKey, usize>,
    accesses: &BTreeMap<PitchedTrackKey, PitchedTrackAccess>,
    vertical_conflict: &F,
    work: &mut PitchedGapWork,
) -> (result: Option<Option<PitchedGapTracks>>)
    requires
        is_track_oracle(*vertical_conflict),
    ensures
        assignment_agrees(
            result,
            *final(work),
            gap_assignment(lanes@, accesses@, gap_answers(*vertical_conflict, gap), *old(work)),
        ),
        result is Some && within_budgets(*old(work)) ==> within_budgets(*final(work)),
        result matches Some(tracks) ==> separates_tracks(tracks, lanes@, accesses@, gap_answers(*vertical_conflict, gap)),
{
    proof {
        lemma_track_keys_ordered();
    }
    let ghost overlap = gap_answers(*vertical_conflict, gap);
    let ghost spec = gap_assignment(lanes@, accesses@, overlap, *work);
    let n = lanes.len();
    if n < 2 {
        return Some(None);
    }
    if n > MAX_PITCHED_GAP_NETS {
        return None;
    }
    let order = lane_ordered_tracks(lanes);
    let mut edges: Vec<Vec<EdgeId>> = Vec::new();
    let mut counts: Vec<usize> = Vec::new();
    let mut k: usize = 0;
    while k < n
        invariant
            k <= n,
            2 <= n <= MAX_PITCHED_GAP_NETS,
            n == order@.len(),
            n == lanes@.dom().len(),
            sorted_tracks(order@, lanes@),
            forall|i: int| 0 <= i < k ==> accesses@.contains_key(#[trigger] order@[i]),
            edges@.len() == k,
            counts@.len() == k,
            forall|i: int| 0 <= i < k ==> (#[trigger] edges@[i])@.to_set() == accesses@[order@[i]].edge_ids@,
            forall|i: int| 0 <= i < k ==> #[trigger] counts@[i] == accesses@[order@[i]].vertical_count,
        decreases n - k,
    {
        match accesses.get(&order[k]) {
            None => {
                proof {
                    assert(lanes@.contains_key(order@[k as int]));
                    assert(!accesses@.contains_key(order@[k as int]));
                }
                return None;
            },
            Some(access) => {
                let listed = set_keys(&access.edge_ids);
                proof {
                    assert(listed@.to_set() =~= access.edge_ids@) by {
                        assert forall|e: EdgeId| access.edge_ids@.contains(e) implies listed@.to_set().contains(e) by {
                            let i = choose|i: int| 0 <= i < listed@.len() && listed@[i] == e;
                            assert(listed@.contains(e));
                        }
                    }
                }
                edges.push(listed);
                counts.push(access.vertical_count);
            },
        }
        k = k + 1;
    }
    proof {
        assert(lanes@.dom().subset_of(accesses@.dom())) by {
            assert forall|key: PitchedTrackKey| lanes@.dom().contains(key) implies accesses@.dom().contains(key) by {
                assert(order@.contains(key));
                let i = choose|i: int| 0 <= i < order@.len() && order@[i] == key;
                assert(accesses@.contains_key(order@[i]));
            }
        }
    }
    assert(n * (n - 1) <= 1024 * 1024) by (nonlinear_arith)
        requires
            2 <= n <= 1024,
    ;
    let pair_count = n * (n - 1) / 2;
    let pairs = match work.pairs.checked_add(pair_count) {
        Some(pairs) => pairs,
        None => {
            return None;
        },
    };
    if pairs > MAX_PITCHED_GAP_PAIRS || work.interval_visits > MAX_PITCHED_GAP_INTERVAL_VISITS
        || work.refinement_visits > MAX_PITCHED_GAP_REFINEMENT_VISITS {
        return None;
    }
    let mut intervals = work.interval_visits;
    let relations = track_relations(gap, &order, &edges, &counts, Ghost(accesses@), vertical_conflict, &mut intervals);
    let (shares, conflicts) = match relations {
        Some(relations) => relations,
        None => {
            return None;
        },
    };
    let mut refinements = work.refinement_visits;
    let coloring = first_fit_colors(
        n,
        &shares,
        &conflicts,
        Ghost(shares_of(order@, accesses@)),
        Ghost(conflicts_of(order@, accesses@, overlap)),
        &mut refinements,
    );
    let (colors, slot_count) = match coloring {
        Some(coloring) => coloring,
        None => {
            return None;
        },
    };
    let ghost spec_colors = first_fit(shares_of(order@, accesses@), conflicts_of(order@, accesses@, overlap), n as int).0;
    let mut slots: BTreeMap<PitchedTrackKey, usize> = BTreeMap::new();
    let mut k: usize = 0;
    while k < n
        invariant
            k <= n,
            n == order@.len(),
            colors@.len() == n,
            order@.no_duplicates(),
            forall|p: int| 0 <= p < n ==> #[trigger] colors@[p] == spec_colors[p],
            forall|key: PitchedTrackKey| #[trigger] slots@.contains_key(key) <==> order@.take(k as int).contains(key),
            forall|i: int| 0 <= i < k ==> #[trigger] slots@[order@[i]] == colors@[i],
        decreases n - k,
    {
        proof {
            lemma_track_keys_ordered();
        }
        slots.insert(order[k], colors[k]);
        proof {
            assert(order@.take(k + 1) =~= order@.take(k as int).push(order@[k as int]));
            assert forall|key: PitchedTrackKey| #[trigger] slots@.contains_key(key) <==> order@.take(k + 1).contains(key) by {
                if order@.take(k as int).contains(key) {
                    let i = choose|i: int| 0 <= i < k && #[trigger] order@.take(k as int)[i] == key;
                    assert(order@.take(k + 1)[i] == key);
                }
                if key == order@[k as int] {
                    assert(order@.take(k + 1)[k as int] == key);
                }
                if order@.take(k + 1).contains(key) {
                    let i = choose|i: int| 0 <= i < k + 1 && #[trigger] order@.take(k + 1)[i] == key;
                    if i < k {
                        assert(order@.take(k as int)[i] == key);
                    }
                }
            }
            assert forall|i: int| 0 <= i < k + 1 implies #[trigger] slots@[order@[i]] == colors@[i] by {
                if i < k {
                    assert(order@[i] != order@[k as int]);
                }
            }
        }
        k = k + 1;
    }
    proof {
        assert(order@.take(n as int) =~= order@);
        assert(slots@ =~= slots_of(order@, spec_colors)) by {
            assert forall|key: PitchedTrackKey| #[trigger] slots@.contains_key(key) implies slots@[key]
                == slots_of(order@, spec_colors)[key] by {
                let i = choose|i: int| 0 <= i < order@.len() && order@[i] == key;
                assert(order@.index_of(key) == i);
            }
        }
    }
    proof {
        lemma_first_fit_slots_separate(order@, lanes@, accesses@, overlap);
        lemma_first_fit_slots_lowest(order@, lanes@, accesses@, overlap);
    }
    work.pairs = pairs;
    work.interval_visits = intervals;
    work.refinement_visits = refinements;
    Some(Some(PitchedGapTracks { slots, slot_count }))
}

/// The outcome of assigning slots gap by gap to the first `count` gaps,
/// from no work at all: `None` as soon as one gap fails, otherwise what each
/// gap was given and the work spent.
pub open spec fn gaps_assignment<F: Fn(usize, PitchedTrackKey, PitchedTrackKey) -> bool>(
    lanes: Seq<BTreeMap<PitchedTrackKey, usize>>,
    accesses: Seq<BTreeMap<PitchedTrackKey, PitchedTrackAccess>>,
    vertical_conflict: F,
    count: int,
) -> Option<(Seq<Option<(Map<PitchedTrackKey, usize>, nat)>>, PitchedGapWork)>
    decreases count,
{
    if count <= 0 {
        Some((Seq::empty(), PitchedGapWork { pairs: 0, interval_visits: 0, refinement_visits: 0 }))
    } else {
        match gaps_assignment(lanes, accesses, vertical_conflict, count - 1) {
            None => None,
            Some((done, work)) => match gap_assignment(
                lanes[count - 1]@,
                accesses[count - 1]@,
                gap_answers(vertical_conflict, (count - 1) as usize),
                work,
            ) {
                None => None,
                Some((outcome, after)) => Some((done.push(outcome), after)),
            },
        }
    }
}

proof fn lemma_gaps_assignment_stays_failed<F: Fn(usize, PitchedTrackKey, PitchedTrackKey) -> bool>(
    lanes: Seq<BTreeMap<PitchedTrackKey, usize>>,
    accesses: Seq<BTreeMap<PitchedTrackKey, PitchedTrackAccess>>,
    vertical_conflict: F,
    count: int,
    later: int,
)
    requires
        count <= later,
        gaps_assignment(lanes, accesses, vertical_conflict, count) is None,
    ensures
        gaps_assignment(lanes, accesses, vertical_conflict, later) is None,
    decreases later - count,
{
    if count < later {
        lemma_gaps_assignment_stays_failed(lanes, accesses, vertical_conflict, count, later - 1);
    }
}

/// Some gap was given slots.
pub open spec fn any_slots(outcomes: Seq<Option<(Map<PitchedTrackKey, usize>, nat)>>) -> bool {
    exists|g: int| 0 <= g < outcomes.len() && (#[trigger] outcomes[g]) is Some
}

/// The gaps and the layer borders agree: one gap between each two
/// neighbouring layers.
pub open spec fn gaps_fit_layers(gaps: int, accesses: int, layer_left_len: int, layer_right_len: int) -> bool {
    gaps == accesses && layer_left_len == layer_right_len && gaps + 1 == layer_left_len
}

/// Slot assignments for the vertical tracks of every gap.
///
/// `current_lanes[g]` gives the lane of each track of gap `g` and
/// `accesses[g]` what each track carries; there are as many gaps as access
/// maps and one fewer than layer borders on either side, else `None`.
/// `vertical_conflict(g, a, b)` tells whether the vertical runs of tracks `a`
/// and `b` (in key order) of gap `g` overlap. Gaps are assigned in order (see
/// `gap_assignment`) under work budgets shared by all of them; the result is
/// `None` when one of them fails, and also when no gap was given slots.
pub fn pitched_gap_track_assignments<F: Fn(usize, PitchedTrackKey, PitchedTrackKey) -> bool>(
    current_lanes: &[BTreeMap<PitchedTrackKey, usize>],
    accesses: &[BTreeMap<PitchedTrackKey, PitchedTrackAccess>],
    layer_left_len: usize,
    layer_right_len: usize,
    vertical_conflict: F,
) -> (result: Option<Vec<Option<PitchedGapTracks>>>)
    requires
        is_track_oracle(vertical_conflict),
    ensures
        ({
            let gaps = current_lanes@.len() as int;
            let outcome = gaps_assignment(current_lanes@, accesses@, vertical_conflict, gaps);
            &&& result is Some <==> gaps_fit_layers(gaps, accesses@.len() as int, layer_left_len as int, layer_right_len as int)
                && outcome is Some && any_slots(outcome->Some_0.0)
            &&& result matches Some(assignments) ==> {
                &&& assignments@.len() == gaps
                &&& forall|g: int| 0 <= g < gaps ==> tracks_view(#[trigger] assignments@[g]) == outcome->Some_0.0[g]
                &&& forall|g: int|
                    0 <= g < gaps ==> separates_tracks(
                        #[trigger] assignments@[g],
                        current_lanes@[g]@,
                        accesses@[g]@,
                        gap_answers(vertical_conflict, g as usize),
                    )
            }
        }),
{
    let gaps = current_lanes.len();
    if gaps != accesses.len() || layer_left_len != layer_right_len {
        return None;
    }
    match gaps.checked_add(1) {
        Some(borders) => {
            if borders != layer_left_len {
                return None;
            }
        },
        None => {
            return None;
        },
    }
    let mut work = PitchedGapWork { pairs: 0, interval_visits: 0, refinement_visits: 0 };
    let mut changed = false;
    let mut assignments: Vec<Option<PitchedGapTracks>> = Vec::new();
    let mut g: usize = 0;
    while g < gaps
        invariant
            g <= gaps,
            gaps == current_lanes@.len(),
            gaps == accesses@.len(),
            is_track_oracle(vertical_conflict),
            within_budgets(work),
            assignments@.len() == g,
            gaps_assignment(current_lanes@, accesses@, vertical_conflict, g as int) matches Some((done, spent))
                && spent == work && done.len() == g && changed == any_slots(done)
                && forall|h: int| 0 <= h < g ==> tracks_view(#[trigger] assignments@[h]) == done[h],
            forall|h: int|
                0 <= h < g ==> separates_tracks(
                    #[trigger] assignments@[h],
                    current_lanes@[h]@,
                    accesses@[h]@,
                    gap_answers(vertical_conflict, h as usize),
                ),
        decreases gaps - g,
    {
        let ghost before = assignments@;
        let ghost done = gaps_assignment(current_lanes@, accesses@, vertical_conflict, g as int)->Some_0.0;
        let assignment = pitched_gap_track_assignment(g, &current_lanes[g], &accesses[g], &vertical_conflict, &mut work);
        match assignment {
            Some(tracks) => {
                let given = tracks.is_some();
                assignments.push(tracks);
                changed = changed || given;
                proof {
                    let next = gaps_assignment(current_lanes@, accesses@, vertical_conflict, g + 1);
                    let now = next->Some_0.0;
                    assert(now == done.push(tracks_view(assignments@[g as int])));
                    assert forall|h: int| 0 <= h < g + 1 implies tracks_view(#[trigger] assignments@[h]) == now[h] by {
                        if h < g {
                            assert(assignments@[h] == before[h]);
                        }
                    }
                    assert forall|h: int| 0 <= h < g + 1 implies separates_tracks(
                        #[trigger] assignments@[h],
                        current_lanes@[h]@,
                        accesses@[h]@,
                        gap_answers(vertical_conflict, h as usize),
                    ) by {
                        if h < g {
                            assert(assignments@[h] == before[h]);
                        }
                    }
                    if any_slots(done) {
                        let h = choose|h: int| 0 <= h < done.len() && (#[trigger] done[h]) is Some;
                        assert(now[h] is Some);
                    }
                    if given {
                        assert(now[g as int] is Some);
                    }
                    if any_slots(now) {
                        let h = choose|h: int| 0 <= h < now.len() && (#[trigger] now[h]) is Some;
                        if h < g {
                            assert(done[h] is Some);
                        }
                    }
                }
            },
            None => {
                proof {
                    lemma_gaps_assignment_stays_failed(current_lanes@, accesses@, vertical_conflict, g + 1, gaps as int);
                }
                return None;
            },
        }
        g = g + 1;
    }
    if changed {
        Some(assignments)
    } else {
        None
    }
}

proof fn lemma_min_color_above(colors: Seq<nat>, shares: spec_fn(int, int) -> bool, t: int, upto: int, p: int)
    requires
        0 <= p < upto,
        shares(t, p),
    ensures
        min_color(colors, shares, t, upto) > colors[p],
    decreases upto,
{
    if p < upto - 1 {
        lemma_min_color_above(colors, shares, t, upto - 1, p);
    }
}

proof fn lemma_min_color_bound(colors: Seq<nat>, shares: spec_fn(int, int) -> bool, t: int, upto: int, count: nat)
    requires
        upto <= colors.len(),
        forall|p: int| 0 <= p < upto ==> colors[p] < count,
    ensures
        min_color(colors, shares, t, upto) <= count,
    decreases upto,
{
    if upto > 0 {
        lemma_min_color_bound(colors, shares, t, upto - 1, count);
    }
}

proof fn lemma_member_scan_clear(list: Seq<int>, conflicts: spec_fn(int, int) -> bool, t: int, i: int, j: int)
    requires
        0 <= i <= j < list.len(),
        member_scan(list, conflicts, t, i).0,
    ensures
        !conflicts(t, list[j]),
    decreases j - i,
{
    if i < j {
        lemma_member_scan_clear(list, conflicts, t, i + 1, j);
    }
}

proof fn lemma_color_search_fits(colors: Seq<nat>, conflicts: spec_fn(int, int) -> bool, t: int, c: nat, count: nat)
    requires
        c <= count,
    ensures
        c <= color_search(colors, conflicts, t, c, count).0 <= count,
        color_search(colors, conflicts, t, c, count).0 < count ==> member_scan(
            color_members(colors, color_search(colors, conflicts, t, c, count).0, t),
            conflicts,
            t,
            0,
        ).0,
    decreases count - c,
{
    if c < count {
        let scan = member_scan(color_members(colors, c, t), conflicts, t, 0);
        if !scan.0 {
            lemma_color_search_fits(colors, conflicts, t, c + 1, count);
        }
    }
}

proof fn lemma_color_members_holds(colors: Seq<nat>, c: nat, k: int, p: int)
    requires
        0 <= p < k <= colors.len(),
        colors[p] == c,
    ensures
        color_members(colors, c, k).contains(p),
    decreases k,
{
    if p < k - 1 {
        lemma_color_members_holds(colors, c, k - 1, p);
        let before = color_members(colors, c, k - 1);
        let i = choose|i: int| 0 <= i < before.len() && before[i] == p;
        if colors[k - 1] == c {
            assert(before.push(k - 1)[i] == p);
        }
    } else {
        let before = color_members(colors, c, k - 1);
        assert(before.push(k - 1)[before.len() as int] == p);
    }
}

/// First fit never gives one color to a track and an earlier track it
/// conflicts with, and gives a track a higher color than every earlier track
/// it shares an edge with.
pub proof fn lemma_first_fit_separates(shares: spec_fn(int, int) -> bool, conflicts: spec_fn(int, int) -> bool, k: int)
    requires
        0 <= k,
    ensures
        forall|p: int, t: int|
            0 <= p < t < k ==> (conflicts(t, p) ==> #[trigger] first_fit(shares, conflicts, k).0[t]
                != #[trigger] first_fit(shares, conflicts, k).0[p]),
        forall|p: int, t: int|
            0 <= p < t < k ==> (shares(t, p) ==> #[trigger] first_fit(shares, conflicts, k).0[t]
                > #[trigger] first_fit(shares, conflicts, k).0[p]),
    decreases k,
{
    if k > 0 {
        lemma_first_fit_separates(shares, conflicts, k - 1);
        lemma_first_fit_len(shares, conflicts, k - 1);
        lemma_first_fit_len(shares, conflicts, k);
        let before = first_fit(shares, conflicts, k - 1);
        let after = first_fit(shares, conflicts, k);
        let t = k - 1;
        let lowest = min_color(before.0, shares, t, t);
        lemma_min_color_bound(before.0, shares, t, t, before.1);
        lemma_color_search_fits(before.0, conflicts, t, lowest, before.1);
        let chosen = color_search(before.0, conflicts, t, lowest, before.1).0;
        assert(after.0 == before.0.push(chosen));
        assert forall|p: int, u: int| 0 <= p < u < k && conflicts(u, p) implies #[trigger] after.0[u] != #[trigger] after.0[p] by {
            assert(after.0[p] == before.0[p]);
            if u < t {
                assert(after.0[u] == before.0[u]);
            } else if chosen < before.1 && before.0[p] == chosen {
                lemma_color_members_holds(before.0, chosen, t, p);
                let list = color_members(before.0, chosen, t);
                let i = choose|i: int| 0 <= i < list.len() && list[i] == p;
                lemma_member_scan_clear(list, conflicts, t, 0, i);
            }
        }
        assert forall|p: int, u: int| 0 <= p < u < k && shares(u, p) implies #[trigger] after.0[u] > #[trigger] after.0[p] by {
            assert(after.0[p] == before.0[p]);
            if u < t {
                assert(after.0[u] == before.0[u]);
            } else {
                lemma_min_color_above(before.0, shares, t, t, p);
            }
        }
    }
}

/// Color `d` is closed to track `t` (of `colors`): it lies at or below the
/// color of an earlier track that `t` shares an edge with, or an earlier
/// track of that color conflicts with `t`.
pub open spec fn color_refused(
    colors: Seq<nat>,
    shares: spec_fn(int, int) -> bool,
    conflicts: spec_fn(int, int) -> bool,
    t: int,
    d: nat,
) -> bool {
    ||| exists|p: int| 0 <= p < t && shares(t, p) && colors[p] >= d
    ||| exists|p: int| 0 <= p < t && colors[p] == d && conflicts(t, p)
}

proof fn lemma_min_color_witness(colors: Seq<nat>, shares: spec_fn(int, int) -> bool, t: int, upto: int, d: nat)
    requires
        min_color(colors, shares, t, upto) > d,
    ensures
        exists|p: int| 0 <= p < upto && shares(t, p) && colors[p] >= d,
    decreases upto,
{
    if upto > 0 {
        let before = min_color(colors, shares, t, upto - 1);
        if shares(t, upto - 1) && colors[upto - 1] + 1 > before {
            assert(shares(t, upto - 1) && colors[upto - 1] >= d);
        } else {
            lemma_min_color_witness(colors, shares, t, upto - 1, d);
        }
    }
}

proof fn lemma_member_scan_finds(list: Seq<int>, conflicts: spec_fn(int, int) -> bool, t: int, i: int)
    requires
        0 <= i,
        !member_scan(list, conflicts, t, i).0,
    ensures
        exists|j: int| i <= j < list.len() && conflicts(t, list[j]),
    decreases list.len() - i,
{
    if i < list.len() && !conflicts(t, list[i]) {
        lemma_member_scan_finds(list, conflicts, t, i + 1);
    }
}

proof fn lemma_color_members_colored(colors: Seq<nat>, c: nat, k: int)
    requires
        0 <= k <= colors.len(),
    ensures
        forall|i: int| 0 <= i < color_members(colors, c, k).len() ==> colors[#[trigger] color_members(colors, c, k)[i]] == c,
    decreases k,
{
    if k > 0 {
        lemma_color_members_colored(colors, c, k - 1);
        let before = color_members(colors, c, k - 1);
        if colors[k - 1] == c {
            assert forall|i: int| 0 <= i < before.push(k - 1).len() implies colors[#[trigger] before.push(k - 1)[i]] == c by {
                if i < before.len() {
                    assert(before.push(k - 1)[i] == before[i]);
                }
            }
        }
    }
}

/// An earlier track of color `d` conflicts with track `t`.
pub open spec fn color_blocked(colors: Seq<nat>, conflicts: spec_fn(int, int) -> bool, t: int, d: nat) -> bool {
    exists|p: int| 0 <= p < t && colors[p] == d && conflicts(t, p)
}

/// Every color that the search passes over holds an earlier track that
/// conflicts with track `t`.
proof fn lemma_color_search_skips(colors: Seq<nat>, conflicts: spec_fn(int, int) -> bool, t: int, c: nat, count: nat)
    requires
        0 <= t <= colors.len(),
    ensures
        forall|d: nat|
            c <= d < color_search(colors, conflicts, t, c, count).0 ==> #[trigger] color_blocked(colors, conflicts, t, d),
    decreases count - c,
{
    if c < count {
        let list = color_members(colors, c, t);
        let scan = member_scan(list, conflicts, t, 0);
        if !scan.0 {
            lemma_color_search_skips(colors, conflicts, t, c + 1, count);
            lemma_member_scan_finds(list, conflicts, t, 0);
            lemma_color_members(colors, c, t);
            lemma_color_members_colored(colors, c, t);
            let j = choose|j: int| 0 <= j < list.len() && conflicts(t, list[j]);
            let p = list[j];
            assert(0 <= p < t && colors[p] == c && conflicts(t, p));
            assert(color_blocked(colors, conflicts, t, c));
        }
    }
}

/// First fit puts every track in the lowest color it fits: each color below
/// a track's own is closed to it (see `color_refused`), so a track opens a
/// new color only when every existing color at or above its lowest allowed
/// one holds an earlier track it conflicts with.
pub proof fn lemma_first_fit_takes_lowest_fitting_color(shares: spec_fn(int, int) -> bool, conflicts: spec_fn(int, int) -> bool, k: int)
    requires
        0 <= k,
    ensures
        forall|t: int, d: nat|
            0 <= t < k && d < first_fit(shares, conflicts, k).0[t] ==> #[trigger] color_refused(
                first_fit(shares, conflicts, k).0,
                shares,
                conflicts,
                t,
                d,
            ),
    decreases k,
{
    if k > 0 {
        lemma_first_fit_takes_lowest_fitting_color(shares, conflicts, k - 1);
        lemma_first_fit_len(shares, conflicts, k - 1);
        let before = first_fit(shares, conflicts, k - 1);
        let after = first_fit(shares, conflicts, k);
        let t = k - 1;
        let lowest = min_color(before.0, shares, t, t);
        let chosen = color_search(before.0, conflicts, t, lowest, before.1).0;
        assert(after.0 == before.0.push(chosen));
        lemma_color_search_skips(before.0, conflicts, t, lowest, before.1);
        assert forall|u: int, d: nat| 0 <= u < k && d < after.0[u] implies #[trigger] color_refused(
            after.0,
            shares,
            conflicts,
            u,
            d,
        ) by {
            if u < t {
                assert(after.0[u] == before.0[u]);
                assert(color_refused(before.0, shares, conflicts, u, d));
                if exists|p: int| 0 <= p < u && shares(u, p) && before.0[p] >= d {
                    let p = choose|p: int| 0 <= p < u && shares(u, p) && before.0[p] >= d;
                    assert(after.0[p] == before.0[p]);
                } else {
                    let p = choose|p: int| 0 <= p < u && before.0[p] == d && conflicts(u, p);
                    assert(after.0[p] == before.0[p]);
                }
            } else {
                if d < lowest {
                    lemma_min_color_witness(before.0, shares, t, t, d);
                    let p = choose|p: int| 0 <= p < t && shares(t, p) && before.0[p] >= d;
                    assert(after.0[p] == before.0[p]);
                } else {
                    assert(color_blocked(before.0, conflicts, t, d));
                    let p = choose|p: int| 0 <= p < t && before.0[p] == d && conflicts(t, p);
                    assert(after.0[p] == before.0[p]);
                }
            }
        }
    }
}

/// Slot `d` is closed to track `a`: it lies at or below the slot of a track
/// of lower rank that `a` shares an edge with, or holds a track of lower rank
/// that `a` conflicts with.
pub open spec fn slot_refused(
    slots: Map<PitchedTrackKey, usize>,
    lanes: Map<PitchedTrackKey, usize>,
    accesses: Map<PitchedTrackKey, PitchedTrackAccess>,
    overlap: spec_fn(PitchedTrackKey, PitchedTrackKey) -> bool,
    a: PitchedTrackKey,
    d: nat,
) -> bool {
    ||| exists|b: PitchedTrackKey|
        slots.contains_key(b) && track_before(track_rank(lanes, b), track_rank(lanes, a)) && keys_share(accesses, a, b)
            && slots[b] >= d
    ||| exists|b: PitchedTrackKey|
        slots.contains_key(b) && track_before(track_rank(lanes, b), track_rank(lanes, a)) && slots[b] == d
            && keys_conflict(accesses, overlap, a, b)
}

/// Some track sits in slot `c`.
pub open spec fn slot_used(slots: Map<PitchedTrackKey, usize>, c: nat) -> bool {
    exists|a: PitchedTrackKey| #[trigger] slots.contains_key(a) && slots[a] == c
}

/// Every slot below `count` holds some track.
pub open spec fn slots_all_used(slots: Map<PitchedTrackKey, usize>, count: nat) -> bool {
    forall|c: nat| c < count ==> #[trigger] slot_used(slots, c)
}

/// Every track sits in the lowest slot it fits: each slot below its own is
/// closed to it (see `slot_refused`). A track opens a new slot only when
/// every slot from its lowest allowed one on holds a track of lower rank
/// that it conflicts with.
pub open spec fn slots_lowest_fit(
    slots: Map<PitchedTrackKey, usize>,
    lanes: Map<PitchedTrackKey, usize>,
    accesses: Map<PitchedTrackKey, PitchedTrackAccess>,
    overlap: spec_fn(PitchedTrackKey, PitchedTrackKey) -> bool,
) -> bool {
    forall|a: PitchedTrackKey, d: nat|
        slots.contains_key(a) && d < slots[a] ==> #[trigger] slot_refused(slots, lanes, accesses, overlap, a, d)
}

/// Tracks `a` and `b` of a gap are distinct and carry a common edge.
pub open spec fn keys_share(accesses: Map<PitchedTrackKey, PitchedTrackAccess>, a: PitchedTrackKey, b: PitchedTrackKey) -> bool {
    a != b && !accesses[a].edge_ids@.disjoint(accesses[b].edge_ids@)
}

/// Tracks `a` and `b` of a gap cannot take one slot: they carry a common
/// edge, or they belong to different nets and their vertical runs overlap.
pub open spec fn keys_conflict(
    accesses: Map<PitchedTrackKey, PitchedTrackAccess>,
    overlap: spec_fn(PitchedTrackKey, PitchedTrackKey) -> bool,
    a: PitchedTrackKey,
    b: PitchedTrackKey,
) -> bool {
    &&& a != b
    &&& (keys_share(accesses, a, b) || (a.0 != b.0 && if key_before(a, b) {
        overlap(a, b)
    } else {
        overlap(b, a)
    }))
}

/// `slots` gives every track of `lanes` a slot below `count`, never one slot
/// to two tracks that conflict, and to a track a higher slot than to every
/// track of lower rank that it shares an edge with.
pub open spec fn slots_separate(
    slots: Map<PitchedTrackKey, usize>,
    count: nat,
    lanes: Map<PitchedTrackKey, usize>,
    accesses: Map<PitchedTrackKey, PitchedTrackAccess>,
    overlap: spec_fn(PitchedTrackKey, PitchedTrackKey) -> bool,
) -> bool {
    &&& slots.dom() == lanes.dom()
    &&& forall|a: PitchedTrackKey| #[trigger] slots.contains_key(a) ==> slots[a] < count
    &&& forall|a: PitchedTrackKey, b: PitchedTrackKey|
        #[trigger] slots.contains_key(a) && #[trigger] slots.contains_key(b) && keys_conflict(accesses, overlap, a, b)
            ==> slots[a] != slots[b]
    &&& forall|a: PitchedTrackKey, b: PitchedTrackKey|
        #[trigger] slots.contains_key(a) && #[trigger] slots.contains_key(b) && keys_share(accesses, a, b)
            && track_before(track_rank(lanes, a), track_rank(lanes, b)) ==> slots[a] < slots[b]
}

/// The slots of a first-fit coloring by rank separate the tracks.
proof fn lemma_first_fit_slots_separate(
    order: Seq<PitchedTrackKey>,
    lanes: Map<PitchedTrackKey, usize>,
    accesses: Map<PitchedTrackKey, PitchedTrackAccess>,
    overlap: spec_fn(PitchedTrackKey, PitchedTrackKey) -> bool,
)
    requires
        sorted_tracks(order, lanes),
        order.no_duplicates(),
        order.len() == lanes.dom().len(),
        order.len() <= usize::MAX,
    ensures
        ({
            let coloring = first_fit(shares_of(order, accesses), conflicts_of(order, accesses, overlap), order.len() as int);
            slots_separate(slots_of(order, coloring.0), coloring.1, lanes, accesses, overlap)
        }),
{
    let sh = shares_of(order, accesses);
    let cf = conflicts_of(order, accesses, overlap);
    let n = order.len() as int;
    let coloring = first_fit(sh, cf, n);
    let slots = slots_of(order, coloring.0);
    lemma_first_fit_len(sh, cf, n);
    lemma_first_fit_separates(sh, cf, n);
    assert forall|i: int| 0 <= i < n implies #[trigger] order.index_of(order[i]) == i by {
        let j = order.index_of(order[i]);
        assert(order.contains(order[i]));
        assert(0 <= j < n && order[j] == order[i]);
    }
    assert(slots.dom() =~= lanes.dom()) by {
        assert forall|key: PitchedTrackKey| slots.dom().contains(key) <==> lanes.dom().contains(key) by {
            if order.contains(key) {
                let i = choose|i: int| 0 <= i < n && order[i] == key;
                assert(lanes.contains_key(order[i]));
            }
        }
    }
    assert forall|a: PitchedTrackKey| #[trigger] slots.contains_key(a) implies slots[a] < coloring.1 by {
        let i = choose|i: int| 0 <= i < n && order[i] == a;
        assert(order.index_of(order[i]) == i);
    }
    assert forall|a: PitchedTrackKey, b: PitchedTrackKey|
        #[trigger] slots.contains_key(a) && #[trigger] slots.contains_key(b) && keys_conflict(accesses, overlap, a, b)
            implies slots[a] != slots[b] by {
        let i = choose|i: int| 0 <= i < n && order[i] == a;
        let j = choose|j: int| 0 <= j < n && order[j] == b;
        assert(order.index_of(order[i]) == i);
        assert(order.index_of(order[j]) == j);
        lemma_relations_symmetric(order, accesses, overlap, i, j);
        assert(tracks_conflict(order, accesses, overlap, i, j));
        assert(slots[a] == coloring.0[i] && slots[b] == coloring.0[j]);
        if i < j {
            assert(cf(j, i));
            assert(coloring.0[j] != coloring.0[i]);
        } else {
            assert(cf(i, j));
            assert(coloring.0[i] != coloring.0[j]);
        }
    }
    assert forall|a: PitchedTrackKey, b: PitchedTrackKey|
        #[trigger] slots.contains_key(a) && #[trigger] slots.contains_key(b) && keys_share(accesses, a, b)
            && track_before(track_rank(lanes, a), track_rank(lanes, b)) implies slots[a] < slots[b] by {
        let i = choose|i: int| 0 <= i < n && order[i] == a;
        let j = choose|j: int| 0 <= j < n && order[j] == b;
        assert(order.index_of(order[i]) == i);
        assert(order.index_of(order[j]) == j);
        lemma_relations_symmetric(order, accesses, overlap, i, j);
        assert(slots[a] == coloring.0[i] && slots[b] == coloring.0[j]);
        if j < i {
            assert(track_before(track_rank(lanes, order[j]), track_rank(lanes, order[i])));
        } else {
            assert(i != j);
            assert(sh(j, i));
            assert(coloring.0[j] > coloring.0[i]);
        }
    }
}

/// The slots of a first-fit coloring by rank put every track in the lowest
/// slot it fits.
proof fn lemma_first_fit_slots_lowest(
    order: Seq<PitchedTrackKey>,
    lanes: Map<PitchedTrackKey, usize>,
    accesses: Map<PitchedTrackKey, PitchedTrackAccess>,
    overlap: spec_fn(PitchedTrackKey, PitchedTrackKey) -> bool,
)
    requires
        sorted_tracks(order, lanes),
        order.no_duplicates(),
        order.len() == lanes.dom().len(),
        order.len() <= usize::MAX,
    ensures
        ({
            let coloring = first_fit(shares_of(order, accesses), conflicts_of(order, accesses, overlap), order.len() as int);
            &&& slots_lowest_fit(slots_of(order, coloring.0), lanes, accesses, overlap)
            &&& slots_all_used(slots_of(order, coloring.0), coloring.1)
        }),
{
    let sh = shares_of(order, accesses);
    let cf = conflicts_of(order, accesses, overlap);
    let n = order.len() as int;
    let coloring = first_fit(sh, cf, n);
    let slots = slots_of(order, coloring.0);
    lemma_first_fit_len(sh, cf, n);
    lemma_first_fit_takes_lowest_fitting_color(sh, cf, n);
    lemma_first_fit_opens_in_order(sh, cf, n);
    assert forall|i: int| 0 <= i < n implies #[trigger] order.index_of(order[i]) == i by {
        let j = order.index_of(order[i]);
        assert(order.contains(order[i]));
        assert(0 <= j < n && order[j] == order[i]);
    }
    assert forall|c: nat| c < coloring.1 implies #[trigger] slot_used(slots, c) by {
        assert(color_taken(coloring.0, c, n));
        let q = choose|q: int| 0 <= q < n && coloring.0[q] == c;
        assert(order.index_of(order[q]) == q);
        assert(order.contains(order[q]));
        assert(slots.contains_key(order[q]) && slots[order[q]] == c);
    }
    assert forall|a: PitchedTrackKey, d: nat| slots.contains_key(a) && d < slots[a] implies #[trigger] slot_refused(
        slots,
        lanes,
        accesses,
        overlap,
        a,
        d,
    ) by {
        let i = choose|i: int| 0 <= i < n && order[i] == a;
        assert(order.index_of(order[i]) == i);
        assert(slots[a] == coloring.0[i]);
        assert(color_refused(coloring.0, sh, cf, i, d));
        if exists|p: int| 0 <= p < i && sh(i, p) && coloring.0[p] >= d {
            let p = choose|p: int| 0 <= p < i && sh(i, p) && coloring.0[p] >= d;
            let b = order[p];
            assert(order.index_of(order[p]) == p);
            assert(order[i] != order[p]);
            assert(track_before(track_rank(lanes, order[p]), track_rank(lanes, order[i])));
            assert(order.contains(b));
            assert(slots.contains_key(b) && slots[b] == coloring.0[p]);
            assert(keys_share(accesses, a, b));
        } else {
            let p = choose|p: int| 0 <= p < i && coloring.0[p] == d && cf(i, p);
            let b = order[p];
            assert(order.index_of(order[p]) == p);
            assert(order[i] != order[p]);
            assert(track_before(track_rank(lanes, order[p]), track_rank(lanes, order[i])));
            assert(order.contains(b));
            assert(slots.contains_key(b) && slots[b] == coloring.0[p]);
            assert(tracks_conflict(order, accesses, overlap, i, p));
            assert(keys_conflict(accesses, overlap, a, b));
        }
    }
}

/// Some track before `upto` has color `c`.
pub open spec fn color_taken(colors: Seq<nat>, c: nat, upto: int) -> bool {
    exists|q: int| 0 <= q < upto && colors[q] == c
}

/// First fit opens colors in track order: every color below the count is
/// taken by some track, and every color below a track's color was taken by an
/// earlier track. So numbering colors by their first track, in rank order,
/// numbers them as first fit does.
pub proof fn lemma_first_fit_opens_in_order(shares: spec_fn(int, int) -> bool, conflicts: spec_fn(int, int) -> bool, k: int)
    requires
        0 <= k,
    ensures
        forall|c: nat|
            c < first_fit(shares, conflicts, k).1 ==> #[trigger] color_taken(first_fit(shares, conflicts, k).0, c, k),
        forall|p: int, c: nat|
            0 <= p < k && c < first_fit(shares, conflicts, k).0[p] ==> #[trigger] color_taken(
                first_fit(shares, conflicts, k).0,
                c,
                p,
            ),
    decreases k,
{
    if k > 0 {
        lemma_first_fit_opens_in_order(shares, conflicts, k - 1);
        lemma_first_fit_len(shares, conflicts, k - 1);
        let before = first_fit(shares, conflicts, k - 1);
        let after = first_fit(shares, conflicts, k);
        let t = k - 1;
        let lowest = min_color(before.0, shares, t, t);
        lemma_min_color_bound(before.0, shares, t, t, before.1);
        lemma_color_search_fits(before.0, conflicts, t, lowest, before.1);
        let chosen = color_search(before.0, conflicts, t, lowest, before.1).0;
        assert(after.0 == before.0.push(chosen));
        assert forall|c: nat| c < after.1 implies #[trigger] color_taken(after.0, c, k) by {
            if c < before.1 {
                assert(color_taken(before.0, c, t));
                let q = choose|q: int| 0 <= q < t && before.0[q] == c;
                assert(after.0[q] == c);
            } else {
                assert(after.0[t] == c);
            }
        }
        assert forall|p: int, c: nat| 0 <= p < k && c < after.0[p] implies #[trigger] color_taken(after.0, c, p) by {
            if p < t {
                assert(after.0[p] == before.0[p]);
                assert(color_taken(before.0, c, p));
                let q = choose|q: int| 0 <= q < p && before.0[q] == c;
                assert(after.0[q] == c);
            } else {
                assert(color_taken(before.0, c, t));
                let q = choose|q: int| 0 <= q < t && before.0[q] == c;
                assert(after.0[q] == c);
            }
        }
    }
}

} // verus!
