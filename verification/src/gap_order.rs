//! Ordering the vertical lanes of one gap to reduce predicted crossings.
use vstd::prelude::*;
use std::collections::BTreeMap;
use crate::graph::NetId;
use crate::lanes::{first_position, lemma_first_position_bounds};
use crate::ordered::{lists_map, map_entries, pair_before, sort_pairs};

verus! {

broadcast use vstd::std_specs::btree::group_btree_axioms;

/// `ordered` lists the nets of `baseline` by increasing (lane, net), each
/// paired with its position in that order.
pub open spec fn orders_baseline(ordered: Seq<(NetId, usize)>, baseline: Map<NetId, usize>) -> bool {
    &&& ordered.len() == baseline.dom().len()
    &&& forall|k: int| 0 <= k < ordered.len() ==> (#[trigger] ordered[k]).1 == k && baseline.contains_key(ordered[k].0)
    &&& forall|i: int, j: int|
        0 <= i < j < ordered.len() ==> pair_before(
            (baseline[(#[trigger] ordered[i]).0], ordered[i].0),
            (baseline[(#[trigger] ordered[j]).0], ordered[j].0),
        )
    &&& forall|net: NetId| #[trigger] baseline.contains_key(net) ==> exists|k: int| 0 <= k < ordered.len() && ordered[k].0 == net
}

/// The nets of a gap in lane order (ties by net), numbered from zero.
pub fn initial_large_gap_order(baseline: &BTreeMap<NetId, usize>) -> (ordered: Vec<(NetId, usize)>)
    ensures
        orders_baseline(ordered@, baseline@),
{
    let entries = map_entries(baseline);
    let mut pairs: Vec<(usize, NetId)> = Vec::new();
    let mut index: usize = 0;
    while index < entries.len()
        invariant
            index <= entries@.len(),
            lists_map(entries@, baseline@),
            pairs@.len() == index,
            forall|t: int| 0 <= t < index ==> #[trigger] pairs@[t] == (entries@[t].1, entries@[t].0),
        decreases entries@.len() - index,
    {
        let (net, lane) = entries[index];
        pairs.push((lane, net));
        index = index + 1;
    }
    assert(pairs@.no_duplicates()) by {
        assert forall|a: int, b: int| 0 <= a < pairs@.len() && 0 <= b < pairs@.len() && a != b implies pairs@[a] != pairs@[b] by {
            if a < b {
                assert(entries@[a].0 < entries@[b].0);
            } else {
                assert(entries@[b].0 < entries@[a].0);
            }
        }
    }
    let sorted = sort_pairs(&pairs);
    assert forall|t: int| 0 <= t < sorted@.len() implies baseline@.contains_key(#[trigger] sorted@[t].1)
        && sorted@[t].0 == baseline@[sorted@[t].1] by {
        assert(sorted@.contains(sorted@[t]));
        let i = choose|i: int| 0 <= i < pairs@.len() && pairs@[i] == sorted@[t];
        assert(baseline@.contains_key(entries@[i].0));
    }
    let mut ordered: Vec<(NetId, usize)> = Vec::new();
    let mut position: usize = 0;
    while position < sorted.len()
        invariant
            position <= sorted@.len(),
            ordered@.len() == position,
            forall|t: int| 0 <= t < position ==> #[trigger] ordered@[t] == (sorted@[t].1, t as usize),
        decreases sorted@.len() - position,
    {
        ordered.push((sorted[position].1, position));
        position = position + 1;
    }
    proof {
        assert forall|i: int, j: int| 0 <= i < j < ordered@.len() implies pair_before(
            (baseline@[(#[trigger] ordered@[i]).0], ordered@[i].0),
            (baseline@[(#[trigger] ordered@[j]).0], ordered@[j].0),
        ) by {
            assert(pair_before(sorted@[i], sorted@[j]));
            assert(sorted@[i].0 == baseline@[sorted@[i].1]);
            assert(sorted@[j].0 == baseline@[sorted@[j].1]);
        }
        assert forall|net: NetId| #[trigger] baseline@.contains_key(net) implies exists|k: int| 0 <= k < ordered@.len() && ordered@[k].0 == net by {
            let i = choose|i: int| 0 <= i < entries@.len() && entries@[i].0 == net;
            assert(pairs@.contains(pairs@[i]));
            assert(sorted@.contains(pairs@[i]));
            let k = choose|k: int| 0 <= k < sorted@.len() && sorted@[k] == pairs@[i];
            assert(ordered@[k].0 == net);
        }
        assert forall|k: int| 0 <= k < ordered@.len() implies (#[trigger] ordered@[k]).1 == k && baseline@.contains_key(ordered@[k].0) by {
            assert(baseline@.contains_key(sorted@[k].1));
        }
    }
    ordered
}

/// In `order`, position `lane` is the last one holding `net`.
pub open spec fn last_position_of(order: Seq<(NetId, usize)>, net: NetId, lane: int) -> bool {
    &&& 0 <= lane < order.len()
    &&& order[lane].0 == net
    &&& forall|k: int| lane < k < order.len() ==> #[trigger] order[k].0 != net
}

/// `candidate` is the lane order candidate of `ordered` with gain `total_gain`:
/// `None` when nothing is gained, else each net of `ordered` with its
/// position (the last one when a net repeats), paired with the gain.
pub open spec fn describes_lane_order(
    candidate: Option<(BTreeMap<NetId, usize>, usize)>,
    ordered: Seq<(NetId, usize)>,
    total_gain: nat,
) -> bool {
    &&& candidate is None <==> total_gain == 0
    &&& candidate matches Some((lanes, gain)) ==> {
        &&& gain == total_gain
        &&& forall|net: NetId| #[trigger] lanes@.contains_key(net) <==> exists|k: int| 0 <= k < ordered.len() && ordered[k].0 == net
        &&& forall|net: NetId| #[trigger] lanes@.contains_key(net) ==> last_position_of(ordered, net, lanes@[net] as int)
    }
}

/// A candidate lane order of a gap: each net of `ordered` gets its position
/// (the last one when a net repeats), paired with the predicted gain; `None`
/// when nothing is gained.
pub fn gap_lane_order_candidate(ordered: &[(NetId, usize)], total_gain: usize) -> (candidate: Option<
    (BTreeMap<NetId, usize>, usize),
>)
    ensures
        describes_lane_order(candidate, ordered@, total_gain as nat),
{
    if total_gain == 0 {
        return None;
    }
    let mut lanes: BTreeMap<NetId, usize> = BTreeMap::new();
    let mut lane: usize = 0;
    while lane < ordered.len()
        invariant
            lane <= ordered@.len(),
            forall|net: NetId| #[trigger] lanes@.contains_key(net) <==> exists|k: int| 0 <= k < lane && ordered@[k].0 == net,
            forall|net: NetId| #[trigger] lanes@.contains_key(net) ==> last_position_of(ordered@.take(lane as int), net, lanes@[net] as int),
        decreases ordered@.len() - lane,
    {
        let ghost before = lanes@;
        lanes.insert(ordered[lane].0, lane);
        proof {
            let next = ordered@.take(lane + 1);
            assert forall|net: NetId| #[trigger] lanes@.contains_key(net) <==> exists|k: int| 0 <= k < lane + 1 && ordered@[k].0 == net by {
                if exists|k: int| 0 <= k < lane + 1 && ordered@[k].0 == net {
                    let k = choose|k: int| 0 <= k < lane + 1 && ordered@[k].0 == net;
                    if k < lane {
                        assert(before.contains_key(net));
                    }
                }
                if before.contains_key(net) {
                    let k = choose|k: int| 0 <= k < lane && ordered@[k].0 == net;
                    assert(0 <= k < lane + 1);
                }
            }
            assert forall|net: NetId| #[trigger] lanes@.contains_key(net) implies last_position_of(next, net, lanes@[net] as int) by {
                if net != ordered@[lane as int].0 {
                    assert(last_position_of(ordered@.take(lane as int), net, before[net] as int));
                    assert forall|k: int| before[net] < k < next.len() implies #[trigger] next[k].0 != net by {
                        if k < lane {
                            assert(ordered@.take(lane as int)[k] == next[k]);
                        }
                    }
                    assert(next[before[net] as int] == ordered@.take(lane as int)[before[net] as int]);
                }
            }
        }
        lane = lane + 1;
    }
    assert(ordered@.take(lane as int) =~= ordered@);
    Some((lanes, total_gain))
}

/// One adjacent-transpose pass from position `i` on: a neighbouring pair is
/// swapped whenever the swapped pair costs strictly less. Also reports whether
/// anything was swapped.
pub open spec fn transpose_pass<T>(s: Seq<T>, cost: spec_fn(T, T) -> nat, i: int) -> (Seq<T>, bool)
    decreases s.len() - i,
{
    if i < 0 || i + 1 >= s.len() {
        (s, false)
    } else if cost(s[i + 1], s[i]) < cost(s[i], s[i + 1]) {
        (transpose_pass(s.update(i, s[i + 1]).update(i + 1, s[i]), cost, i + 1).0, true)
    } else {
        transpose_pass(s, cost, i + 1)
    }
}

/// Up to `rounds` transpose passes, stopping after the first pass that swaps nothing.
pub open spec fn refined_order<T>(s: Seq<T>, rounds: nat, cost: spec_fn(T, T) -> nat) -> Seq<T>
    decreases rounds,
{
    if rounds == 0 {
        s
    } else {
        let (next, changed) = transpose_pass(s, cost, 0);
        if changed {
            refined_order(next, (rounds - 1) as nat, cost)
        } else {
            next
        }
    }
}

/// The cost that `pair_cost` reports for `a` lying below `b`.
pub open spec fn reported_cost<T, F: Fn(T, T) -> usize>(pair_cost: F, a: T, b: T) -> nat {
    (choose|r: usize| pair_cost.ensures((a, b), r)) as nat
}

/// All the costs that `pair_cost` reports, as one function of the pair.
pub open spec fn reported_costs<T, F: Fn(T, T) -> usize>(pair_cost: F) -> spec_fn(T, T) -> nat {
    |a: T, b: T| reported_cost(pair_cost, a, b)
}

/// `pair_cost` accepts every pair and reports one cost for each.
pub open spec fn is_pair_cost<T, F: Fn(T, T) -> usize>(pair_cost: F) -> bool {
    &&& forall|a: T, b: T| pair_cost.requires((a, b))
    &&& forall|a: T, b: T, r1: usize, r2: usize|
        pair_cost.ensures((a, b), r1) && pair_cost.ensures((a, b), r2) ==> r1 == r2
}

pub proof fn lemma_reported_cost<T, F: Fn(T, T) -> usize>(pair_cost: F)
    requires
        is_pair_cost(pair_cost),
    ensures
        forall|a: T, b: T, r: usize| pair_cost.ensures((a, b), r) ==> r == reported_cost(pair_cost, a, b),
{
    assert forall|a: T, b: T, r: usize| pair_cost.ensures((a, b), r) implies r == reported_cost(pair_cost, a, b) by {
        let chosen = choose|c: usize| pair_cost.ensures((a, b), c);
        assert(pair_cost.ensures((a, b), chosen));
    }
}

/// Refines a lane order by adjacent transposes, for at most `lane_rounds`
/// passes; `pair_cost(a, b)` is the predicted cost of `a` lying below `b`.
pub fn refine_gap_lane_order<T: Copy, F: Fn(T, T) -> usize>(ordered: &mut Vec<T>, lane_rounds: usize, pair_cost: F)
    requires
        is_pair_cost(pair_cost),
    ensures
        final(ordered)@ == refined_order(old(ordered)@, lane_rounds as nat, reported_costs(pair_cost)),
{
    let ghost cost = reported_costs(pair_cost);
    proof {
        lemma_reported_cost(pair_cost);
    }
    let ghost start = ordered@;
    assert(start == old(ordered)@);
    let mut round: usize = 0;
    let mut settled = false;
    while round < lane_rounds && !settled
        invariant
            round <= lane_rounds,
            forall|a: T, b: T| pair_cost.requires((a, b)),
            forall|a: T, b: T, r: usize| pair_cost.ensures((a, b), r) ==> r == cost(a, b),
            !settled ==> refined_order(start, lane_rounds as nat, cost) == refined_order(ordered@, (lane_rounds - round) as nat, cost),
            settled ==> refined_order(start, lane_rounds as nat, cost) == ordered@,
        decreases lane_rounds - round,
    {
        let ghost pass_start = ordered@;
        let mut changed = false;
        let mut index: usize = 0;
        let last = if ordered.len() > 0 {
            ordered.len() - 1
        } else {
            0
        };
        while index < last
            invariant
                index <= last,
                last + 1 == ordered@.len() || (last == 0 && ordered@.len() == 0),
                ordered@.len() == pass_start.len(),
                round < lane_rounds,
                refined_order(start, lane_rounds as nat, cost) == refined_order(pass_start, (lane_rounds - round) as nat, cost),
                forall|a: T, b: T| pair_cost.requires((a, b)),
                forall|a: T, b: T, r: usize| pair_cost.ensures((a, b), r) ==> r == cost(a, b),
                transpose_pass(pass_start, cost, 0) == (transpose_pass(ordered@, cost, index as int).0, changed
                    || transpose_pass(ordered@, cost, index as int).1),
            decreases last - index,
        {
            let left = ordered[index];
            let right = ordered[index + 1];
            let current_cost = pair_cost(left, right);
            let swapped_cost = pair_cost(right, left);
            if swapped_cost < current_cost {
                ordered.set(index, right);
                ordered.set(index + 1, left);
                changed = true;
            }
            index = index + 1;
        }
        proof {
            assert(transpose_pass(ordered@, cost, index as int) == (ordered@, false));
        }
        if !changed {
            assert(refined_order(pass_start, (lane_rounds - round) as nat, cost) == ordered@);
            settled = true;
        } else {
            assert(refined_order(pass_start, (lane_rounds - round) as nat, cost) == refined_order(ordered@, (lane_rounds - round - 1) as nat, cost));
        }
        round = round + 1;
    }
}

/// Total cost of the pairs `(s[i], s[j])` with `j` in `i + 1 .. end`.
pub open spec fn row_cost<T>(s: Seq<T>, cost: spec_fn(T, T) -> nat, i: int, end: int) -> nat
    decreases end - i,
{
    if end <= i + 1 {
        0
    } else {
        row_cost(s, cost, i, end - 1) + cost(s[i], s[end - 1])
    }
}

/// Total cost of all ordered pairs whose first position is below `rows`.
pub open spec fn rows_cost<T>(s: Seq<T>, cost: spec_fn(T, T) -> nat, rows: int) -> nat
    decreases rows,
{
    if rows <= 0 {
        0
    } else {
        rows_cost(s, cost, rows - 1) + row_cost(s, cost, rows - 1, s.len() as int)
    }
}

/// Predicted cost of a whole lane order: every net against every net above it.
pub open spec fn order_cost<T>(s: Seq<T>, cost: spec_fn(T, T) -> nat) -> nat {
    rows_cost(s, cost, s.len() as int)
}

/// Predicted cost of a lane order, saturating at `usize::MAX`.
pub fn gap_lane_order_cost<F: Fn(NetId, NetId) -> usize>(ordered: &[NetId], pair_cost: F) -> (total: usize)
    requires
        is_pair_cost(pair_cost),
    ensures
        total == if order_cost(ordered@, reported_costs(pair_cost)) <= usize::MAX {
            order_cost(ordered@, reported_costs(pair_cost))
        } else {
            usize::MAX as nat
        },
{
    let ghost cost = reported_costs(pair_cost);
    proof {
        lemma_reported_cost(pair_cost);
    }
    let ghost s = ordered@;
    let mut total: usize = 0;
    let mut index: usize = 0;
    while index < ordered.len()
        invariant
            index <= s.len(),
            s == ordered@,
            forall|a: NetId, b: NetId| pair_cost.requires((a, b)),
            forall|a: NetId, b: NetId, r: usize| pair_cost.ensures((a, b), r) ==> r == cost(a, b),
            total == if rows_cost(s, cost, index as int) <= usize::MAX {
                rows_cost(s, cost, index as int)
            } else {
                usize::MAX as nat
            },
        decreases s.len() - index,
    {
        let left = ordered[index];
        let mut other = index + 1;
        while other < ordered.len()
            invariant
                index < s.len(),
                index + 1 <= other <= s.len(),
                s == ordered@,
                left == s[index as int],
                forall|a: NetId, b: NetId| pair_cost.requires((a, b)),
                forall|a: NetId, b: NetId, r: usize| pair_cost.ensures((a, b), r) ==> r == cost(a, b),
                total == if rows_cost(s, cost, index as int) + row_cost(s, cost, index as int, other as int) <= usize::MAX {
                    rows_cost(s, cost, index as int) + row_cost(s, cost, index as int, other as int)
                } else {
                    usize::MAX as nat
                },
            decreases s.len() - other,
        {
            let value = pair_cost(left, ordered[other]);
            total = if value > usize::MAX - total {
                usize::MAX
            } else {
                total + value
            };
            other = other + 1;
        }
        index = index + 1;
    }
    total
}

/// Total cost of `x` below each of `s[lo .. end]`.
pub open spec fn pair_sum<T>(x: T, s: Seq<T>, cost: spec_fn(T, T) -> nat, lo: int, end: int) -> nat
    decreases end - lo,
{
    if end <= lo {
        0
    } else {
        pair_sum(x, s, cost, lo, end - 1) + cost(x, s[end - 1])
    }
}

proof fn lemma_pair_sum_split<T>(x: T, s: Seq<T>, cost: spec_fn(T, T) -> nat, lo: int, mid: int, end: int)
    requires
        lo <= mid <= end,
    ensures
        pair_sum(x, s, cost, lo, end) == pair_sum(x, s, cost, lo, mid) + pair_sum(x, s, cost, mid, end),
    decreases end - mid,
{
    if mid < end {
        lemma_pair_sum_split(x, s, cost, lo, mid, end - 1);
    }
}

proof fn lemma_pair_sum_agree<T>(x: T, s: Seq<T>, t: Seq<T>, cost: spec_fn(T, T) -> nat, lo: int, end: int)
    requires
        forall|q: int| lo <= q < end ==> s[q] == t[q],
    ensures
        pair_sum(x, s, cost, lo, end) == pair_sum(x, t, cost, lo, end),
    decreases end - lo,
{
    if lo < end {
        lemma_pair_sum_agree(x, s, t, cost, lo, end - 1);
    }
}

proof fn lemma_row_as_pair_sum<T>(s: Seq<T>, cost: spec_fn(T, T) -> nat, p: int, end: int)
    ensures
        row_cost(s, cost, p, end) == pair_sum(s[p], s, cost, p + 1, end),
    decreases end - p,
{
    if end > p + 1 {
        lemma_row_as_pair_sum(s, cost, p, end - 1);
    }
}

/// Swapping the neighbours at `i` and `i + 1` trades the cost of that one
/// pair for the cost of the reversed pair; every other pair keeps its order.
proof fn lemma_swap_cost<T>(s: Seq<T>, cost: spec_fn(T, T) -> nat, i: int)
    requires
        0 <= i,
        i + 1 < s.len(),
    ensures
        order_cost(s.update(i, s[i + 1]).update(i + 1, s[i]), cost) + cost(s[i], s[i + 1]) == order_cost(s, cost)
            + cost(s[i + 1], s[i]),
{
    lemma_rows_swap(s, cost, i, s.len() as int);
}

proof fn lemma_rows_swap<T>(s: Seq<T>, cost: spec_fn(T, T) -> nat, i: int, r: int)
    requires
        0 <= i,
        i + 1 < s.len(),
        0 <= r <= s.len(),
        r != i + 1,
    ensures
        rows_cost(s.update(i, s[i + 1]).update(i + 1, s[i]), cost, r) + (if r > i + 1 {
            cost(s[i], s[i + 1])
        } else {
            0nat
        }) == rows_cost(s, cost, r) + (if r > i + 1 {
            cost(s[i + 1], s[i])
        } else {
            0nat
        }),
    decreases r,
{
    let t = s.update(i, s[i + 1]).update(i + 1, s[i]);
    let n = s.len() as int;
    let a = s[i];
    let b = s[i + 1];
    if r > 0 {
        let p = r - 1;
        lemma_row_as_pair_sum(s, cost, p, n);
        lemma_row_as_pair_sum(t, cost, p, n);
        if p < i {
            lemma_rows_swap(s, cost, i, p);
            assert(t[p] == s[p]);
            lemma_pair_sum_split(s[p], s, cost, p + 1, i, n);
            lemma_pair_sum_split(s[p], t, cost, p + 1, i, n);
            lemma_pair_sum_split(s[p], s, cost, i, i + 2, n);
            lemma_pair_sum_split(s[p], t, cost, i, i + 2, n);
            lemma_pair_sum_agree(s[p], s, t, cost, p + 1, i);
            lemma_pair_sum_agree(s[p], s, t, cost, i + 2, n);
            assert(pair_sum(s[p], s, cost, i, i) == 0);
            assert(pair_sum(s[p], t, cost, i, i) == 0);
            assert(pair_sum(s[p], s, cost, i, i + 1) == cost(s[p], a));
            assert(pair_sum(s[p], t, cost, i, i + 1) == cost(s[p], b));
            assert(pair_sum(s[p], s, cost, i, i + 2) == pair_sum(s[p], t, cost, i, i + 2));
        } else if p == i + 1 {
            lemma_rows_swap(s, cost, i, i);
            assert(t[i] == b && t[i + 1] == a);
            lemma_row_as_pair_sum(s, cost, i, n);
            lemma_row_as_pair_sum(t, cost, i, n);
            assert(pair_sum(a, s, cost, i + 1, i + 1) == 0);
            assert(pair_sum(b, t, cost, i + 1, i + 1) == 0);
            assert(pair_sum(a, s, cost, i + 1, i + 2) == cost(a, b));
            assert(pair_sum(b, t, cost, i + 1, i + 2) == cost(b, a));
            lemma_pair_sum_split(a, s, cost, i + 1, i + 2, n);
            lemma_pair_sum_split(b, t, cost, i + 1, i + 2, n);
            lemma_pair_sum_agree(b, s, t, cost, i + 2, n);
            lemma_pair_sum_agree(a, s, t, cost, i + 2, n);
            assert(rows_cost(t, cost, i + 1) == rows_cost(t, cost, i) + row_cost(t, cost, i, n));
            assert(rows_cost(s, cost, i + 1) == rows_cost(s, cost, i) + row_cost(s, cost, i, n));
        } else {
            lemma_rows_swap(s, cost, i, p);
            assert(t[p] == s[p]);
            lemma_pair_sum_agree(s[p], s, t, cost, p + 1, n);
        }
    }
}

proof fn lemma_pass_improves<T>(s: Seq<T>, cost: spec_fn(T, T) -> nat, i: int)
    ensures
        transpose_pass(s, cost, i).0.to_multiset() == s.to_multiset(),
        transpose_pass(s, cost, i).0.len() == s.len(),
        order_cost(transpose_pass(s, cost, i).0, cost) <= order_cost(s, cost),
        transpose_pass(s, cost, i).1 ==> order_cost(transpose_pass(s, cost, i).0, cost) < order_cost(s, cost),
        !transpose_pass(s, cost, i).1 ==> transpose_pass(s, cost, i).0 == s,
    decreases s.len() - i,
{
    broadcast use vstd::seq_lib::to_multiset_update, vstd::multiset::group_multiset_axioms;

    if i < 0 || i + 1 >= s.len() {
    } else if cost(s[i + 1], s[i]) < cost(s[i], s[i + 1]) {
        let t = s.update(i, s[i + 1]).update(i + 1, s[i]);
        lemma_swap_cost(s, cost, i);
        lemma_pass_improves(t, cost, i + 1);
        let u = s.update(i, s[i + 1]);
        s.to_multiset_ensures();
        u.to_multiset_ensures();
        assert(s.contains(s[i]));
        assert(u.contains(u[i]));
        assert(u.to_multiset() == s.to_multiset().insert(s[i + 1]).remove(s[i]));
        assert(t.to_multiset() == u.to_multiset().insert(s[i]).remove(s[i + 1]));
        assert(t.to_multiset() =~= s.to_multiset());
    } else {
        lemma_pass_improves(s, cost, i + 1);
    }
}

/// Some adjacent pair of `s` would cost less swapped.
pub open spec fn has_improving_swap<T>(s: Seq<T>, cost: spec_fn(T, T) -> nat) -> bool {
    exists|i: int| 0 <= i && i + 1 < s.len() && #[trigger] cost(s[i + 1], s[i]) < cost(s[i], s[i + 1])
}

/// A pass from position `i` swaps something when an adjacent pair at or
/// after `i` would cost less swapped.
proof fn lemma_pass_changes<T>(s: Seq<T>, cost: spec_fn(T, T) -> nat, i: int, j: int)
    requires
        0 <= i <= j,
        j + 1 < s.len(),
        cost(s[j + 1], s[j]) < cost(s[j], s[j + 1]),
    ensures
        transpose_pass(s, cost, i).1,
    decreases s.len() - i,
{
    if !(cost(s[i + 1], s[i]) < cost(s[i], s[i + 1])) {
        lemma_pass_changes(s, cost, i + 1, j);
    }
}

/// Refining for `a + b` rounds is refining for `a` rounds and then for `b`
/// more.
pub proof fn lemma_refined_order_composes<T>(s: Seq<T>, a: nat, b: nat, cost: spec_fn(T, T) -> nat)
    ensures
        refined_order(s, a + b, cost) == refined_order(refined_order(s, a, cost), b, cost),
    decreases a,
{
    if a > 0 {
        let (next, changed) = transpose_pass(s, cost, 0);
        lemma_pass_improves(s, cost, 0);
        if changed {
            lemma_refined_order_composes(next, (a - 1) as nat, b, cost);
            assert((a - 1) as nat + b == (a + b - 1) as nat);
        } else {
            assert(next == s);
        }
    }
}

/// Once a round leaves the order as it is, no later round changes it.
proof fn lemma_refined_order_settles<T>(s: Seq<T>, m: nat, k: nat, cost: spec_fn(T, T) -> nat)
    requires
        m <= k,
        refined_order(s, m + 1, cost) == refined_order(s, m, cost),
    ensures
        refined_order(s, k, cost) == refined_order(s, m, cost),
    decreases k - m,
{
    if m < k {
        lemma_refined_order_settles(s, m, (k - 1) as nat, cost);
        lemma_refined_order_composes(s, (k - 1) as nat, 1, cost);
        lemma_refined_order_composes(s, m, 1, cost);
        assert((k - 1) as nat + 1 == k);
    }
}

/// Refinement stops early only at a settled order: when the order after
/// `rounds` rounds still has an adjacent pair that would cost less swapped,
/// then every one of those rounds changed the order, and one more round
/// would change it again.
pub proof fn lemma_refinement_stops_only_when_settled<T>(s: Seq<T>, rounds: nat, cost: spec_fn(T, T) -> nat)
    requires
        has_improving_swap(refined_order(s, rounds, cost), cost),
    ensures
        refined_order(s, rounds + 1, cost) != refined_order(s, rounds, cost),
        forall|m: nat| m < rounds ==> #[trigger] refined_order(s, m, cost) != refined_order(s, m + 1, cost),
{
    let r = refined_order(s, rounds, cost);
    let i = choose|i: int| 0 <= i && i + 1 < r.len() && #[trigger] cost(r[i + 1], r[i]) < cost(r[i], r[i + 1]);
    lemma_pass_changes(r, cost, 0, i);
    lemma_pass_improves(r, cost, 0);
    lemma_refined_order_composes(s, rounds, 1, cost);
    assert(refined_order(r, 1, cost) == refined_order(transpose_pass(r, cost, 0).0, 0, cost));
    assert forall|m: nat| m < rounds implies #[trigger] refined_order(s, m, cost) != refined_order(s, m + 1, cost) by {
        if refined_order(s, m, cost) == refined_order(s, m + 1, cost) {
            lemma_refined_order_settles(s, m, rounds, cost);
            lemma_refined_order_settles(s, m, rounds + 1, cost);
        }
    }
}

/// Refining a lane order only reorders it, never raises its predicted cost,
/// and lowers it strictly whenever the order changes.
pub proof fn lemma_refined_order_improves<T>(s: Seq<T>, rounds: nat, cost: spec_fn(T, T) -> nat)
    ensures
        refined_order(s, rounds, cost).to_multiset() == s.to_multiset(),
        refined_order(s, rounds, cost).len() == s.len(),
        order_cost(refined_order(s, rounds, cost), cost) <= order_cost(s, cost),
        refined_order(s, rounds, cost) != s ==> order_cost(refined_order(s, rounds, cost), cost) < order_cost(
            s,
            cost,
        ),
    decreases rounds,
{
    if rounds > 0 {
        let (next, changed) = transpose_pass(s, cost, 0);
        lemma_pass_improves(s, cost, 0);
        if changed {
            lemma_refined_order_improves(next, (rounds - 1) as nat, cost);
        }
    }
}

/// `seed` lists the nets of `lanes` by increasing (lane, net).
pub open spec fn sorted_by_lane(seed: Seq<NetId>, lanes: Map<NetId, usize>) -> bool {
    &&& forall|k: int| 0 <= k < seed.len() ==> lanes.contains_key(#[trigger] seed[k])
    &&& forall|net: NetId| #[trigger] lanes.contains_key(net) ==> seed.contains(net)
    &&& forall|i: int, j: int|
        0 <= i < j < seed.len() ==> pair_before(
            (lanes[#[trigger] seed[i]], seed[i]),
            (lanes[#[trigger] seed[j]], seed[j]),
        )
}

/// The lane of each net of `order`: its position in the order.
pub open spec fn lanes_of_order(order: Seq<NetId>) -> Map<NetId, usize> {
    Map::new(|net: NetId| order.contains(net), |net: NetId| first_position(order, net) as usize)
}

/// The nets of `current` by increasing (lane, net).
pub(crate) fn lane_sorted_nets(current: &BTreeMap<NetId, usize>) -> (seed: Vec<NetId>)
    ensures
        sorted_by_lane(seed@, current@),
        seed@.no_duplicates(),
{
    let ordered = initial_large_gap_order(current);
    let mut seed: Vec<NetId> = Vec::new();
    let mut index: usize = 0;
    while index < ordered.len()
        invariant
            index <= ordered@.len(),
            orders_baseline(ordered@, current@),
            seed@.len() == index,
            forall|t: int| 0 <= t < index ==> #[trigger] seed@[t] == ordered@[t].0,
        decreases ordered@.len() - index,
    {
        seed.push(ordered[index].0);
        index = index + 1;
    }
    proof {
        assert forall|k: int| 0 <= k < seed@.len() implies current@.contains_key(#[trigger] seed@[k]) by {
            assert(ordered@[k].1 == k);
        }
        assert forall|net: NetId| #[trigger] current@.contains_key(net) implies seed@.contains(net) by {
            let k = choose|k: int| 0 <= k < ordered@.len() && ordered@[k].0 == net;
            assert(seed@[k] == net);
        }
        assert forall|i: int, j: int| 0 <= i < j < seed@.len() implies pair_before(
            (current@[#[trigger] seed@[i]], seed@[i]),
            (current@[#[trigger] seed@[j]], seed@[j]),
        ) by {
            assert(pair_before(
                (current@[(ordered@[i]).0], ordered@[i].0),
                (current@[(ordered@[j]).0], ordered@[j].0),
            ));
        }
        assert forall|i: int, j: int| 0 <= i < seed@.len() && 0 <= j < seed@.len() && i != j implies seed@[i]
            != seed@[j] by {
            if i < j {
                assert(pair_before((current@[seed@[i]], seed@[i]), (current@[seed@[j]], seed@[j])));
            } else {
                assert(pair_before((current@[seed@[j]], seed@[j]), (current@[seed@[i]], seed@[i])));
            }
        }
    }
    seed
}

/// Numbers the nets of a duplicate-free order by position.
pub(crate) fn lanes_from_order(order: &Vec<NetId>) -> (lanes: BTreeMap<NetId, usize>)
    requires
        order@.no_duplicates(),
    ensures
        lanes@ == lanes_of_order(order@),
{
    let mut lanes: BTreeMap<NetId, usize> = BTreeMap::new();
    let mut index: usize = 0;
    while index < order.len()
        invariant
            index <= order@.len(),
            order@.no_duplicates(),
            forall|net: NetId| #[trigger] lanes@.contains_key(net) <==> order@.take(index as int).contains(net),
            forall|net: NetId| #[trigger] lanes@.contains_key(net) ==> lanes@[net] == first_position(order@, net),
        decreases order@.len() - index,
    {
        let ghost before = lanes@;
        proof {
            lemma_first_position_bounds(order@, order@[index as int]);
            assert(order@.contains(order@[index as int]));
            let p = first_position(order@, order@[index as int]);
            assert(order@[p as int] == order@[index as int]);
        }
        lanes.insert(order[index], index);
        proof {
            let next = order@.take(index + 1);
            let prev = order@.take(index as int);
            assert forall|net: NetId| #[trigger] lanes@.contains_key(net) <==> next.contains(net) by {
                if next.contains(net) {
                    let k = choose|k: int| 0 <= k < next.len() && next[k] == net;
                    if k < index {
                        assert(prev[k] == net);
                    }
                }
                if before.contains_key(net) {
                    let k = choose|k: int| 0 <= k < prev.len() && prev[k] == net;
                    assert(next[k] == net);
                }
                if net == order@[index as int] {
                    assert(next[index as int] == net);
                }
            }
        }
        index = index + 1;
    }
    proof {
        assert(order@.take(index as int) =~= order@);
        assert forall|net: NetId| lanes@.contains_key(net) implies lanes@[net] == first_position(order@, net) as usize by {
            lemma_first_position_bounds(order@, net);
        }
        assert(lanes@ =~= lanes_of_order(order@));
    }
    lanes
}

/// Refinement keeps a duplicate-free order duplicate-free and keeps its nets.
pub(crate) proof fn lemma_refined_order_keeps_nets<T>(s: Seq<T>, rounds: nat, cost: spec_fn(T, T) -> nat)
    requires
        s.no_duplicates(),
    ensures
        refined_order(s, rounds, cost).no_duplicates(),
        forall|x: T| #[trigger] refined_order(s, rounds, cost).contains(x) <==> s.contains(x),
{
    let t = refined_order(s, rounds, cost);
    lemma_refined_order_improves(s, rounds, cost);
    s.lemma_multiset_has_no_duplicates();
    t.lemma_multiset_has_no_duplicates_conv();
    s.to_multiset_ensures();
    t.to_multiset_ensures();
    assert forall|x: T| #[trigger] t.contains(x) <==> s.contains(x) by {
        assert(t.contains(x) <==> t.to_multiset().count(x) > 0);
        assert(s.contains(x) <==> s.to_multiset().count(x) > 0);
    }
}

/// Crossing-aware lanes of one gap: the nets start in their current lane
/// order (ties by net) and are refined by adjacent transposes under
/// `pair_cost`; each net's new lane is its position.
pub fn crossing_aware_gap_lane_indices_with_rounds<F: Fn(NetId, NetId) -> usize>(
    current: &BTreeMap<NetId, usize>,
    pair_cost: F,
    lane_rounds: usize,
) -> (lanes: BTreeMap<NetId, usize>)
    requires
        is_pair_cost(pair_cost),
    ensures
        exists|seed: Seq<NetId>|
            sorted_by_lane(seed, current@) && lanes@ == lanes_of_order(
                refined_order(seed, lane_rounds as nat, reported_costs(pair_cost)),
            ),
{
    let mut ordered = lane_sorted_nets(current);
    let ghost seed = ordered@;
    refine_gap_lane_order(&mut ordered, lane_rounds, pair_cost);
    proof {
        lemma_refined_order_keeps_nets(seed, lane_rounds as nat, reported_costs(pair_cost));
    }
    lanes_from_order(&ordered)
}

/// The listing of a gap's nets by (lane, net) is unique.
pub proof fn lemma_sorted_by_lane_unique(a: Seq<NetId>, b: Seq<NetId>, lanes: Map<NetId, usize>)
    requires
        sorted_by_lane(a, lanes),
        sorted_by_lane(b, lanes),
    ensures
        a == b,
    decreases a.len(),
{
    if a.len() == 0 {
        if b.len() > 0 {
            assert(lanes.contains_key(b[0]));
            assert(a.contains(b[0]));
        }
        assert(a =~= b);
    } else {
        assert(lanes.contains_key(a[0]));
        assert(b.contains(a[0]));
        let j = choose|j: int| 0 <= j < b.len() && b[j] == a[0];
        assert(lanes.contains_key(b[0]));
        assert(a.contains(b[0]));
        let i = choose|i: int| 0 <= i < a.len() && a[i] == b[0];
        if i > 0 && j > 0 {
            assert(pair_before((lanes[a[0]], a[0]), (lanes[a[i]], a[i])));
            assert(pair_before((lanes[b[0]], b[0]), (lanes[b[j]], b[j])));
        }
        assert(a[0] == b[0]);
        let first = a[0];
        let rest = lanes.remove(first);
        let ta = a.drop_first();
        let tb = b.drop_first();
        assert forall|k: int| 0 <= k < ta.len() implies rest.contains_key(#[trigger] ta[k]) by {
            assert(ta[k] == a[k + 1]);
            assert(pair_before((lanes[a[0]], a[0]), (lanes[a[k + 1]], a[k + 1])));
        }
        assert forall|k: int| 0 <= k < tb.len() implies rest.contains_key(#[trigger] tb[k]) by {
            assert(tb[k] == b[k + 1]);
            assert(pair_before((lanes[b[0]], b[0]), (lanes[b[k + 1]], b[k + 1])));
        }
        assert forall|net: NetId| #[trigger] rest.contains_key(net) implies ta.contains(net) by {
            let k = choose|k: int| 0 <= k < a.len() && a[k] == net;
            assert(ta[k - 1] == net);
        }
        assert forall|net: NetId| #[trigger] rest.contains_key(net) implies tb.contains(net) by {
            assert(b.contains(net));
            let k = choose|k: int| 0 <= k < b.len() && b[k] == net;
            assert(tb[k - 1] == net);
        }
        assert forall|x: int, y: int| 0 <= x < y < ta.len() implies pair_before(
            (rest[#[trigger] ta[x]], ta[x]),
            (rest[#[trigger] ta[y]], ta[y]),
        ) by {
            assert(ta[x] == a[x + 1] && ta[y] == a[y + 1]);
            assert(pair_before((lanes[a[x + 1]], a[x + 1]), (lanes[a[y + 1]], a[y + 1])));
            assert(pair_before((lanes[a[0]], a[0]), (lanes[a[x + 1]], a[x + 1])));
            assert(pair_before((lanes[a[0]], a[0]), (lanes[a[y + 1]], a[y + 1])));
        }
        assert forall|x: int, y: int| 0 <= x < y < tb.len() implies pair_before(
            (rest[#[trigger] tb[x]], tb[x]),
            (rest[#[trigger] tb[y]], tb[y]),
        ) by {
            assert(tb[x] == b[x + 1] && tb[y] == b[y + 1]);
            assert(pair_before((lanes[b[x + 1]], b[x + 1]), (lanes[b[y + 1]], b[y + 1])));
            assert(pair_before((lanes[b[0]], b[0]), (lanes[b[x + 1]], b[x + 1])));
            assert(pair_before((lanes[b[0]], b[0]), (lanes[b[y + 1]], b[y + 1])));
        }
        lemma_sorted_by_lane_unique(ta, tb, rest);
        assert(a =~= b) by {
            assert forall|k: int| 0 <= k < a.len() implies a[k] == b[k] by {
                if k > 0 {
                    assert(a[k] == ta[k - 1] && b[k] == tb[k - 1]);
                }
            }
        }
    }
}

/// The baseline order of a gap (see `initial_large_gap_order`) is unique.
pub proof fn lemma_orders_baseline_unique(a: Seq<(NetId, usize)>, b: Seq<(NetId, usize)>, baseline: Map<NetId, usize>)
    requires
        orders_baseline(a, baseline),
        orders_baseline(b, baseline),
    ensures
        a == b,
{
    let na = a.map_values(|entry: (NetId, usize)| entry.0);
    let nb = b.map_values(|entry: (NetId, usize)| entry.0);
    assert forall|net: NetId| #[trigger] baseline.contains_key(net) implies na.contains(net) by {
        let k = choose|k: int| 0 <= k < a.len() && a[k].0 == net;
        assert(na[k] == net);
    }
    assert forall|net: NetId| #[trigger] baseline.contains_key(net) implies nb.contains(net) by {
        let k = choose|k: int| 0 <= k < b.len() && b[k].0 == net;
        assert(nb[k] == net);
    }
    assert forall|k: int| 0 <= k < na.len() implies baseline.contains_key(#[trigger] na[k]) by {
        assert(a[k].1 == k);
    }
    assert forall|k: int| 0 <= k < nb.len() implies baseline.contains_key(#[trigger] nb[k]) by {
        assert(b[k].1 == k);
    }
    lemma_sorted_by_lane_unique(na, nb, baseline);
    assert(a =~= b) by {
        assert forall|k: int| 0 <= k < a.len() implies a[k] == b[k] by {
            assert(na[k] == nb[k]);
            assert(a[k].1 == k && b[k].1 == k);
        }
    }
}

/// Total cost of each of `s[0 .. k]` lying below `x`.
pub open spec fn below_sum<T>(s: Seq<T>, x: T, cost: spec_fn(T, T) -> nat, k: int) -> nat
    decreases k,
{
    if k <= 0 {
        0
    } else {
        below_sum(s, x, cost, k - 1) + cost(s[k - 1], x)
    }
}

/// Total cost of `x` lying below each of `s[k ..]`.
pub open spec fn above_sum<T>(s: Seq<T>, x: T, cost: spec_fn(T, T) -> nat, k: int) -> nat {
    pair_sum(x, s, cost, k, s.len() as int)
}

/// The part of an order's cost that involves `x` when it sits at position
/// `k` of `s`: the nets below it against `x`, and `x` against those above.
pub open spec fn placement_cost<T>(s: Seq<T>, x: T, cost: spec_fn(T, T) -> nat, k: int) -> nat {
    below_sum(s, x, cost, k) + above_sum(s, x, cost, k)
}

/// Moving `x` past the entry at `k`: that pair's cost turns around.
pub proof fn lemma_placement_step<T>(s: Seq<T>, x: T, cost: spec_fn(T, T) -> nat, k: int)
    requires
        0 <= k < s.len(),
    ensures
        placement_cost(s, x, cost, k) == below_sum(s, x, cost, k) + cost(x, s[k]) + above_sum(s, x, cost, k + 1),
        placement_cost(s, x, cost, k + 1) == below_sum(s, x, cost, k) + cost(s[k], x) + above_sum(s, x, cost, k + 1),
{
    lemma_pair_sum_split(x, s, cost, k, k + 1, s.len() as int);
    assert(pair_sum(x, s, cost, k, k) == 0);
}

proof fn lemma_pair_sum_shift<T>(x: T, s: Seq<T>, t: Seq<T>, cost: spec_fn(T, T) -> nat, lo: int, end: int)
    requires
        forall|q: int| lo <= q < end ==> t[q + 1] == s[q],
    ensures
        pair_sum(x, t, cost, lo + 1, end + 1) == pair_sum(x, s, cost, lo, end),
    decreases end - lo,
{
    if lo < end {
        lemma_pair_sum_shift(x, s, t, cost, lo, end - 1);
    }
}

proof fn lemma_rows_insert<T>(s: Seq<T>, x: T, cost: spec_fn(T, T) -> nat, k: int, r: int)
    requires
        0 <= k <= s.len(),
        0 <= r <= s.len() + 1,
    ensures
        r <= k ==> rows_cost(s.insert(k, x), cost, r) == rows_cost(s, cost, r) + below_sum(s, x, cost, r),
        r > k ==> rows_cost(s.insert(k, x), cost, r) == rows_cost(s, cost, r - 1) + placement_cost(s, x, cost, k),
    decreases r,
{
    let t = s.insert(k, x);
    let n = s.len() as int;
    if r > 0 {
        lemma_rows_insert(s, x, cost, k, r - 1);
        let p = r - 1;
        lemma_row_as_pair_sum(t, cost, p, n + 1);
        assert forall|q: int| k <= q < n implies t[q + 1] == s[q] by {}
        if p < k {
            lemma_row_as_pair_sum(s, cost, p, n);
            assert(t[p] == s[p]);
            lemma_pair_sum_split(s[p], t, cost, p + 1, k, n + 1);
            lemma_pair_sum_split(s[p], t, cost, k, k + 1, n + 1);
            assert(pair_sum(s[p], t, cost, k, k) == 0);
            assert(t[k] == x);
            lemma_pair_sum_agree(s[p], s, t, cost, p + 1, k);
            lemma_pair_sum_shift(s[p], s, t, cost, k, n);
            lemma_pair_sum_split(s[p], s, cost, p + 1, k, n);
        } else if p == k {
            assert(t[k] == x);
            lemma_pair_sum_shift(x, s, t, cost, k, n);
        } else {
            lemma_row_as_pair_sum(s, cost, p - 1, n);
            assert(t[p] == s[p - 1]);
            lemma_pair_sum_shift(s[p - 1], s, t, cost, p, n);
        }
    }
}

/// Putting `x` at position `k` of `s` adds exactly its placement cost to the
/// cost of the order.
pub proof fn lemma_order_cost_insert<T>(s: Seq<T>, x: T, cost: spec_fn(T, T) -> nat, k: int)
    requires
        0 <= k <= s.len(),
    ensures
        order_cost(s.insert(k, x), cost) == order_cost(s, cost) + placement_cost(s, x, cost, k),
{
    lemma_rows_insert(s, x, cost, k, s.len() + 1int);
}

} // verus!
