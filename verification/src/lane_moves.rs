//! What moving nets to the outer lanes of a gap keeps: a gap whose lanes are
//! `0 .. n` still has lanes `0 .. n`, the moved nets sit outermost in
//! priority order, the others keep their relative order, and moving the same
//! nets again changes nothing.
use vstd::prelude::*;
use std::collections::BTreeMap;
use vstd::set_lib::{lemma_int_range, lemma_len_subset, set_int_range};
use crate::gap_order::{lanes_of_order, lemma_refined_order_keeps_nets, refined_order};
use crate::graph::NetId;
use crate::lanes::{
    first_position, lemma_first_position_bounds, lemma_selected_nets_in_lanes, move_changes_lanes,
    move_is_defined, moved_gap, moved_lane, selected_lanes_below, selected_nets,
};

verus! {

/// The lanes of a gap are `0 .. n` for its `n` nets, each lane used once.
pub open spec fn is_lane_permutation(lanes: Map<NetId, usize>) -> bool {
    &&& lanes.dom().finite()
    &&& lanes.len() <= usize::MAX
    &&& forall|net: NetId| #[trigger] lanes.contains_key(net) ==> lanes[net] < lanes.len()
    &&& forall|a: NetId, b: NetId|
        lanes.contains_key(a) && lanes.contains_key(b) && a != b ==> #[trigger] lanes[a] != #[trigger] lanes[b]
}

/// A candidate, when there is one, numbers exactly the nets `nets` with
/// lanes `0 .. n`.
pub open spec fn candidate_is_permutation(candidate: Option<(BTreeMap<NetId, usize>, usize)>, nets: Set<NetId>) -> bool {
    match candidate {
        Some((lanes, _)) => is_lane_permutation(lanes@) && lanes@.dom() == nets,
        None => true,
    }
}

/// How many entries of `selected` have a lane in `lo .. hi`.
spec fn lanes_between(lanes: Map<NetId, usize>, selected: Seq<NetId>, lo: int, hi: int) -> nat
    decreases selected.len(),
{
    if selected.len() == 0 {
        0
    } else {
        lanes_between(lanes, selected.drop_last(), lo, hi) + (if lo <= lanes[selected.last()] < hi {
            1nat
        } else {
            0nat
        })
    }
}

/// The lanes in `lo .. hi` used by entries of `selected`.
spec fn lane_set_between(lanes: Map<NetId, usize>, selected: Seq<NetId>, lo: int, hi: int) -> Set<int>
    decreases selected.len(),
{
    if selected.len() == 0 {
        Set::empty()
    } else {
        let rest = lane_set_between(lanes, selected.drop_last(), lo, hi);
        if lo <= lanes[selected.last()] < hi {
            rest.insert(lanes[selected.last()] as int)
        } else {
            rest
        }
    }
}

/// No two entries of `selected` share a lane.
spec fn distinct_lanes(lanes: Map<NetId, usize>, selected: Seq<NetId>) -> bool {
    forall|i: int, j: int|
        #![trigger selected[i], selected[j]]
        0 <= i < j < selected.len() ==> lanes[selected[i]] != lanes[selected[j]]
}

proof fn lemma_below_split(lanes: Map<NetId, usize>, selected: Seq<NetId>, lo: int, hi: int)
    requires
        0 <= lo <= hi,
    ensures
        selected_lanes_below(lanes, selected, hi) == selected_lanes_below(lanes, selected, lo)
            + lanes_between(lanes, selected, lo, hi),
        selected_lanes_below(lanes, selected, lo) == lanes_between(lanes, selected, 0, lo),
    decreases selected.len(),
{
    if selected.len() > 0 {
        lemma_below_split(lanes, selected.drop_last(), lo, hi);
    }
}

proof fn lemma_between_all(lanes: Map<NetId, usize>, selected: Seq<NetId>, lo: int, hi: int)
    requires
        forall|j: int| 0 <= j < selected.len() ==> lo <= #[trigger] lanes[selected[j]] < hi,
    ensures
        lanes_between(lanes, selected, lo, hi) == selected.len(),
    decreases selected.len(),
{
    if selected.len() > 0 {
        let rest = selected.drop_last();
        assert forall|j: int| 0 <= j < rest.len() implies lo <= #[trigger] lanes[rest[j]] < hi by {
            assert(rest[j] == selected[j]);
        }
        lemma_between_all(lanes, rest, lo, hi);
        assert(lanes[selected[selected.len() - 1]] == lanes[selected.last()]);
    }
}

proof fn lemma_below_none(lanes: Map<NetId, usize>, selected: Seq<NetId>, lane: int)
    requires
        forall|j: int| 0 <= j < selected.len() ==> lane <= #[trigger] lanes[selected[j]],
    ensures
        selected_lanes_below(lanes, selected, lane) == 0,
    decreases selected.len(),
{
    if selected.len() > 0 {
        let rest = selected.drop_last();
        assert forall|j: int| 0 <= j < rest.len() implies lane <= #[trigger] lanes[rest[j]] by {
            assert(rest[j] == selected[j]);
        }
        lemma_below_none(lanes, rest, lane);
        assert(lanes[selected[selected.len() - 1]] == lanes[selected.last()]);
    }
}

proof fn lemma_lane_set(lanes: Map<NetId, usize>, selected: Seq<NetId>, lo: int, hi: int)
    requires
        distinct_lanes(lanes, selected),
    ensures
        lane_set_between(lanes, selected, lo, hi).finite(),
        lane_set_between(lanes, selected, lo, hi).len() == lanes_between(lanes, selected, lo, hi),
        forall|v: int| #[trigger]
            lane_set_between(lanes, selected, lo, hi).contains(v) ==> lo <= v < hi && exists|j: int|
                0 <= j < selected.len() && lanes[selected[j]] == v,
    decreases selected.len(),
{
    if selected.len() > 0 {
        let rest = selected.drop_last();
        let last = selected.len() - 1;
        assert forall|i: int, j: int| #![trigger rest[i], rest[j]] 0 <= i < j < rest.len() implies lanes[rest[i]]
            != lanes[rest[j]] by {
            assert(rest[i] == selected[i] && rest[j] == selected[j]);
        }
        lemma_lane_set(lanes, rest, lo, hi);
        let set_rest = lane_set_between(lanes, rest, lo, hi);
        let v_last = lanes[selected[last]] as int;
        assert(selected.last() == selected[last]);
        if set_rest.contains(v_last) {
            let j = choose|j: int| 0 <= j < rest.len() && lanes[rest[j]] == v_last;
            assert(rest[j] == selected[j]);
            assert(lanes[selected[j]] != lanes[selected[last]]);
        }
        assert forall|v: int| #[trigger]
            lane_set_between(lanes, selected, lo, hi).contains(v) implies lo <= v < hi && exists|j: int|
                0 <= j < selected.len() && lanes[selected[j]] == v by {
            if set_rest.contains(v) {
                let j = choose|j: int| 0 <= j < rest.len() && lanes[rest[j]] == v;
                assert(rest[j] == selected[j]);
            } else {
                assert(lanes[selected[last]] == v);
            }
        }
    }
}

/// Distinct lanes in `lo .. hi` are at most `hi - lo`, and one fewer when
/// `lo` itself is not among them.
proof fn lemma_between_bound(lanes: Map<NetId, usize>, selected: Seq<NetId>, lo: int, hi: int)
    requires
        distinct_lanes(lanes, selected),
        lo <= hi,
    ensures
        lanes_between(lanes, selected, lo, hi) <= hi - lo,
        lo < hi && (forall|j: int| 0 <= j < selected.len() ==> #[trigger] lanes[selected[j]] != lo)
            ==> lanes_between(lanes, selected, lo, hi) <= hi - lo - 1,
{
    lemma_lane_set(lanes, selected, lo, hi);
    let found = lane_set_between(lanes, selected, lo, hi);
    lemma_int_range(lo, hi);
    assert(found.subset_of(set_int_range(lo, hi)));
    lemma_len_subset(found, set_int_range(lo, hi));
    if lo < hi && (forall|j: int| 0 <= j < selected.len() ==> #[trigger] lanes[selected[j]] != lo) {
        lemma_int_range(lo + 1, hi);
        assert forall|v: int| found.contains(v) implies set_int_range(lo + 1, hi).contains(v) by {
            let j = choose|j: int| 0 <= j < selected.len() && lanes[selected[j]] == v;
            assert(lanes[selected[j]] != lo);
        }
        lemma_len_subset(found, set_int_range(lo + 1, hi));
    }
}

/// The nets selected in a gap are the nets of `nets` it holds, each once
/// when `nets` has no repeats; which they are depends on the gap's nets only.
proof fn lemma_selected_members(lanes: Map<NetId, usize>, nets: Seq<NetId>)
    ensures
        forall|net: NetId| #[trigger] selected_nets(lanes, nets).contains(net) <==> nets.contains(net)
            && lanes.contains_key(net),
        nets.no_duplicates() ==> selected_nets(lanes, nets).no_duplicates(),
        forall|other: Map<NetId, usize>| #[trigger] other.dom() == lanes.dom() ==> selected_nets(other, nets)
            == selected_nets(lanes, nets),
    decreases nets.len(),
{
    if nets.len() > 0 {
        let rest = nets.drop_last();
        lemma_selected_members(lanes, rest);
        let sel_rest = selected_nets(lanes, rest);
        assert forall|net: NetId| #[trigger] selected_nets(lanes, nets).contains(net) <==> nets.contains(net)
            && lanes.contains_key(net) by {
            if nets.contains(net) && net != nets.last() {
                let i = choose|i: int| 0 <= i < nets.len() && nets[i] == net;
                assert(rest[i] == net);
            }
            if rest.contains(net) {
                let i = choose|i: int| 0 <= i < rest.len() && rest[i] == net;
                assert(nets[i] == net);
            }
            if lanes.contains_key(nets.last()) {
                let all = sel_rest.push(nets.last());
                assert(all[all.len() - 1] == nets.last());
                if sel_rest.contains(net) {
                    let i = choose|i: int| 0 <= i < sel_rest.len() && sel_rest[i] == net;
                    assert(all[i] == net);
                }
                if all.contains(net) {
                    let i = choose|i: int| 0 <= i < all.len() && all[i] == net;
                    if i < sel_rest.len() {
                        assert(sel_rest[i] == net);
                    }
                }
            }
            assert(nets[nets.len() - 1] == nets.last());
        }
        if nets.no_duplicates() {
            assert(rest.no_duplicates()) by {
                assert forall|i: int, j: int| 0 <= i < rest.len() && 0 <= j < rest.len() && i != j implies rest[i]
                    != rest[j] by {
                    assert(rest[i] == nets[i] && rest[j] == nets[j]);
                }
            }
            if lanes.contains_key(nets.last()) {
                assert(!rest.contains(nets.last())) by {
                    if rest.contains(nets.last()) {
                        let i = choose|i: int| 0 <= i < rest.len() && rest[i] == nets.last();
                        assert(nets[i] == nets[nets.len() - 1]);
                    }
                }
                assert(!sel_rest.contains(nets.last()));
                let all = sel_rest.push(nets.last());
                assert forall|i: int, j: int| 0 <= i < all.len() && 0 <= j < all.len() && i != j implies all[i]
                    != all[j] by {
                    if i < sel_rest.len() && j < sel_rest.len() {
                        assert(all[i] == sel_rest[i] && all[j] == sel_rest[j]);
                    } else if i < sel_rest.len() {
                        assert(all[i] == sel_rest[i]);
                        assert(sel_rest.contains(all[i]));
                    } else if j < sel_rest.len() {
                        assert(all[j] == sel_rest[j]);
                        assert(sel_rest.contains(all[j]));
                    }
                }
            }
        }
        assert forall|other: Map<NetId, usize>| #[trigger] other.dom() == lanes.dom() implies selected_nets(
            other,
            nets,
        ) == selected_nets(lanes, nets) by {
            assert(other.contains_key(nets.last()) == lanes.contains_key(nets.last()));
        }
    }
}

/// Facts about the selected nets of a lane permutation that every law below uses.
proof fn lemma_selected_lanes(lanes: Map<NetId, usize>, nets: Seq<NetId>)
    requires
        is_lane_permutation(lanes),
        nets.no_duplicates(),
    ensures
        distinct_lanes(lanes, selected_nets(lanes, nets)),
        selected_nets(lanes, nets).no_duplicates(),
        selected_nets(lanes, nets).len() <= lanes.len(),
        lanes_between(lanes, selected_nets(lanes, nets), 0, lanes.len() as int) == selected_nets(
            lanes,
            nets,
        ).len(),
        forall|j: int|
            0 <= j < selected_nets(lanes, nets).len() ==> lanes.contains_key(
                #[trigger] selected_nets(lanes, nets)[j],
            ),
        forall|j: int|
            0 <= j < selected_nets(lanes, nets).len() ==> first_position(
                selected_nets(lanes, nets),
                #[trigger] selected_nets(lanes, nets)[j],
            ) == j,
{
    let sel = selected_nets(lanes, nets);
    lemma_selected_members(lanes, nets);
    lemma_selected_nets_in_lanes(lanes, nets);
    assert forall|i: int, j: int| #![trigger sel[i], sel[j]] 0 <= i < j < sel.len() implies lanes[sel[i]]
        != lanes[sel[j]] by {
        assert(lanes.contains_key(sel[i]) && lanes.contains_key(sel[j]));
    }
    assert forall|j: int| 0 <= j < sel.len() implies 0 <= #[trigger] lanes[sel[j]] < lanes.len() as int by {
        assert(lanes.contains_key(sel[j]));
    }
    lemma_between_all(lanes, sel, 0, lanes.len() as int);
    lemma_between_bound(lanes, sel, 0, lanes.len() as int);
    assert forall|j: int| 0 <= j < sel.len() implies first_position(sel, #[trigger] sel[j]) == j by {
        lemma_first_position_bounds(sel, sel[j]);
        assert(sel.contains(sel[j]));
    }
}

/// Moving distinct nets to the outer lanes of a gap whose lanes are `0 .. n`
/// is always possible, and leaves lanes `0 .. n`, each used once.
pub proof fn lemma_move_keeps_lane_permutation(lanes: Map<NetId, usize>, nets: Seq<NetId>)
    requires
        is_lane_permutation(lanes),
        nets.no_duplicates(),
    ensures
        move_is_defined(lanes, nets),
        forall|net: NetId| #[trigger]
            lanes.contains_key(net) ==> 0 <= moved_lane(lanes, nets, net) < lanes.len(),
        moved_gap(lanes, nets).dom() == lanes.dom(),
        is_lane_permutation(moved_gap(lanes, nets)),
{
    lemma_move_priority_order(lanes, nets);
    let sel = selected_nets(lanes, nets);
    let n = lanes.len() as int;
    let k = sel.len() as int;
    lemma_selected_lanes(lanes, nets);
    lemma_selected_members(lanes, nets);
    assert forall|net: NetId| lanes.contains_key(net) && !sel.contains(net) implies selected_lanes_below(
        lanes,
        sel,
        lanes[net] as int,
    ) <= lanes[net] by {
        lemma_below_split(lanes, sel, lanes[net] as int, lanes[net] as int);
        lemma_between_bound(lanes, sel, 0, lanes[net] as int);
    }
    assert forall|net: NetId| #[trigger]
        lanes.contains_key(net) implies 0 <= moved_lane(lanes, nets, net) < lanes.len() by {
        if sel.contains(net) {
            let j = choose|j: int| 0 <= j < sel.len() && sel[j] == net;
            assert(first_position(sel, sel[j]) == j);
        } else {
            lemma_below_split(lanes, sel, lanes[net] as int, lanes[net] as int);
            lemma_between_bound(lanes, sel, 0, lanes[net] as int);
        }
    }
    let moved = moved_gap(lanes, nets);
    assert(moved.dom() =~= lanes.dom());
    assert forall|a: NetId, b: NetId|
        moved.contains_key(a) && moved.contains_key(b) && a != b implies #[trigger] moved[a] != #[trigger] moved[b] by {
        let ma = moved_lane(lanes, nets, a);
        let mb = moved_lane(lanes, nets, b);
        assert(0 <= ma < n && 0 <= mb < n);
        assert(moved[a] == ma && moved[b] == mb);
        if sel.contains(a) && sel.contains(b) {
            let i = choose|i: int| 0 <= i < sel.len() && sel[i] == a;
            let j = choose|j: int| 0 <= j < sel.len() && sel[j] == b;
            assert(ma == n - k + i && mb == n - k + j);
        } else if sel.contains(a) {
            let i = choose|i: int| 0 <= i < sel.len() && sel[i] == a;
            assert(ma == n - k + i);
            assert(!nets.contains(b));
        } else if sel.contains(b) {
            let j = choose|j: int| 0 <= j < sel.len() && sel[j] == b;
            assert(mb == n - k + j);
            assert(!nets.contains(a));
        } else {
            assert(!nets.contains(a) && !nets.contains(b));
            assert(lanes[a] != lanes[b]);
        }
    }
}

/// The moved nets take the outer lanes of the gap in priority order (the
/// first of `nets` innermost); every other net ends below them, and those
/// keep their relative order.
pub proof fn lemma_move_priority_order(lanes: Map<NetId, usize>, nets: Seq<NetId>)
    requires
        is_lane_permutation(lanes),
        nets.no_duplicates(),
    ensures
        forall|i: int|
            0 <= i < selected_nets(lanes, nets).len() ==> moved_lane(
                lanes,
                nets,
                #[trigger] selected_nets(lanes, nets)[i],
            ) == lanes.len() - selected_nets(lanes, nets).len() + i,
        forall|net: NetId|
            #[trigger] lanes.contains_key(net) && !nets.contains(net) ==> moved_lane(lanes, nets, net)
                < lanes.len() - selected_nets(lanes, nets).len(),
        forall|a: NetId, b: NetId|
            lanes.contains_key(a) && lanes.contains_key(b) && !nets.contains(a) && !nets.contains(b)
                && lanes[a] < lanes[b] ==> #[trigger] moved_lane(lanes, nets, a) < #[trigger] moved_lane(
                lanes,
                nets,
                b,
            ),
{
    let sel = selected_nets(lanes, nets);
    let n = lanes.len() as int;
    let k = sel.len() as int;
    lemma_selected_lanes(lanes, nets);
    lemma_selected_members(lanes, nets);
    assert forall|i: int| 0 <= i < sel.len() implies moved_lane(lanes, nets, #[trigger] sel[i]) == n - k + i by {
        assert(sel.contains(sel[i]));
    }
    assert forall|net: NetId| #[trigger] lanes.contains_key(net) && !nets.contains(net) implies moved_lane(
        lanes,
        nets,
        net,
    ) < n - k by {
        let l = lanes[net] as int;
        assert(!sel.contains(net));
        lemma_below_split(lanes, sel, l, n);
        lemma_below_split(lanes, sel, 0, n);
        assert forall|j: int| 0 <= j < sel.len() implies #[trigger] lanes[sel[j]] != l by {
            assert(sel[j] != net);
        }
        lemma_between_bound(lanes, sel, l, n);
    }
    assert forall|a: NetId, b: NetId|
        lanes.contains_key(a) && lanes.contains_key(b) && !nets.contains(a) && !nets.contains(b) && lanes[a]
            < lanes[b] implies #[trigger] moved_lane(lanes, nets, a) < #[trigger] moved_lane(lanes, nets, b) by {
        let la = lanes[a] as int;
        let lb = lanes[b] as int;
        assert(!sel.contains(a) && !sel.contains(b));
        lemma_below_split(lanes, sel, la, lb);
        assert forall|j: int| 0 <= j < sel.len() implies #[trigger] lanes[sel[j]] != la by {
            assert(sel[j] != a);
        }
        lemma_between_bound(lanes, sel, la, lb);
    }
}

/// Once moved, a gap is settled: moving the same nets again gives every net
/// the lane it already has.
pub proof fn lemma_move_is_settled(lanes: Map<NetId, usize>, nets: Seq<NetId>)
    requires
        is_lane_permutation(lanes),
        nets.no_duplicates(),
    ensures
        forall|net: NetId| #[trigger]
            moved_gap(lanes, nets).contains_key(net) ==> moved_lane(moved_gap(lanes, nets), nets, net)
                == moved_gap(lanes, nets)[net],
{
    let moved = moved_gap(lanes, nets);
    let sel = selected_nets(lanes, nets);
    let n = lanes.len() as int;
    let k = sel.len() as int;
    lemma_move_keeps_lane_permutation(lanes, nets);
    lemma_move_priority_order(lanes, nets);
    lemma_selected_lanes(lanes, nets);
    lemma_selected_members(lanes, nets);
    assert(moved.dom() == lanes.dom());
    assert(selected_nets(moved, nets) == sel);
    assert(moved.len() == lanes.len());
    assert forall|j: int| 0 <= j < sel.len() implies n - k <= #[trigger] moved[sel[j]] by {
        assert(moved_lane(lanes, nets, sel[j]) == n - k + j);
        assert(lanes.contains_key(sel[j]));
        assert(moved[sel[j]] == moved_lane(lanes, nets, sel[j]));
    }
    assert forall|net: NetId| #[trigger] moved.contains_key(net) implies moved_lane(moved, nets, net)
        == moved[net] by {
        assert(lanes.contains_key(net));
        assert(moved[net] == moved_lane(lanes, nets, net));
        if sel.contains(net) {
            let j = choose|j: int| 0 <= j < sel.len() && sel[j] == net;
            assert(moved_lane(lanes, nets, sel[j]) == n - k + j);
            assert(first_position(sel, sel[j]) == j);
        } else {
            assert(!nets.contains(net));
            lemma_below_none(moved, sel, moved[net] as int);
        }
    }
}

/// Moving distinct nets twice: the second move over gaps whose lanes are
/// `0 .. n` changes no lane.
pub proof fn lemma_second_move_changes_nothing(gap_lanes: Seq<Map<NetId, usize>>, nets: Seq<NetId>)
    requires
        forall|gap: int| 0 <= gap < gap_lanes.len() ==> is_lane_permutation(#[trigger] gap_lanes[gap]),
        nets.no_duplicates(),
    ensures
        !move_changes_lanes(gap_lanes.map_values(|lanes: Map<NetId, usize>| moved_gap(lanes, nets)), nets),
{
    let moved = gap_lanes.map_values(|lanes: Map<NetId, usize>| moved_gap(lanes, nets));
    assert forall|gap: int, net: NetId|
        0 <= gap < moved.len() && #[trigger] moved[gap].contains_key(net) implies moved_lane(
        moved[gap],
        nets,
        net,
    ) == moved[gap][net] by {
        lemma_move_is_settled(gap_lanes[gap], nets);
    }
}

/// Numbering a duplicate-free order by position gives lanes `0 .. n`, each used once.
pub proof fn lemma_order_lanes_are_permutation(order: Seq<NetId>)
    requires
        order.no_duplicates(),
        order.len() <= usize::MAX,
    ensures
        is_lane_permutation(lanes_of_order(order)),
        lanes_of_order(order).len() == order.len(),
{
    let lanes = lanes_of_order(order);
    order.unique_seq_to_set();
    assert(lanes.dom() =~= order.to_set());
    vstd::seq_lib::seq_to_set_is_finite(order);
    assert forall|net: NetId| #[trigger] lanes.contains_key(net) implies lanes[net] < lanes.len() by {
        lemma_first_position_bounds(order, net);
    }
    assert forall|a: NetId, b: NetId|
        lanes.contains_key(a) && lanes.contains_key(b) && a != b implies #[trigger] lanes[a] != #[trigger] lanes[b] by {
        lemma_first_position_bounds(order, a);
        lemma_first_position_bounds(order, b);
    }
}

/// Refining a duplicate-free lane order and numbering it by position gives
/// lanes `0 .. n` over the same nets: the crossing-aware and global lane
/// orders are lane permutations.
pub proof fn lemma_refined_lanes_are_permutation(
    seed: Seq<NetId>,
    rounds: nat,
    cost: spec_fn(NetId, NetId) -> nat,
)
    requires
        seed.no_duplicates(),
        seed.len() <= usize::MAX,
    ensures
        is_lane_permutation(lanes_of_order(refined_order(seed, rounds, cost))),
        forall|net: NetId| #[trigger] lanes_of_order(refined_order(seed, rounds, cost)).contains_key(net)
            <==> seed.contains(net),
{
    let refined = refined_order(seed, rounds, cost);
    lemma_refined_order_keeps_nets(seed, rounds, cost);
    crate::gap_order::lemma_refined_order_improves(seed, rounds, cost);
    lemma_order_lanes_are_permutation(refined);
}

} // verus!
