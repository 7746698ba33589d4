//! Counting the crossings between horizontal and vertical pieces of routed
//! edges with one sweep along the rank of their abscissa. A crossing is a
//! pair whose open spans cross strictly, of different nets, that meet at no
//! endpoint shared between nets.
use vstd::prelude::*;
use std::collections::BTreeMap;
use std::collections::BTreeSet;
use crate::fenwick::{
    count_sum, lemma_addable_when_total_fits, lemma_count_sum_split, lemma_count_sum_update,
    lemma_removable_when_counted, CrossingFenwick,
};
use crate::graph::{Endpoint, NetId, NodeId, PortId};
use crate::ordered::lemma_ids_ordered;

verus! {

broadcast use vstd::std_specs::btree::group_btree_axioms;

/// Number of `h` in `0 .. n` for which `p` holds.
pub open spec fn range_count(n: int, p: spec_fn(int) -> bool) -> nat
    decreases n,
{
    if n <= 0 {
        0
    } else {
        range_count(n - 1, p) + if p(n - 1) {
            1nat
        } else {
            0nat
        }
    }
}

/// Number of entries of `list` for which `p` holds.
pub open spec fn list_count(list: Seq<usize>, p: spec_fn(int) -> bool) -> nat
    decreases list.len(),
{
    if list.len() == 0 {
        0
    } else {
        list_count(list.drop_last(), p) + if p(list.last() as int) {
            1nat
        } else {
            0nat
        }
    }
}

/// The entries of `list` strictly increase.
pub open spec fn increasing(list: Seq<usize>) -> bool {
    forall|i: int, j: int| 0 <= i < j < list.len() ==> list[i] < list[j]
}

proof fn lemma_range_count_congruent(n: int, p: spec_fn(int) -> bool, q: spec_fn(int) -> bool)
    requires
        forall|h: int| 0 <= h < n ==> #[trigger] p(h) == q(h),
    ensures
        range_count(n, p) == range_count(n, q),
    decreases n,
{
    if n > 0 {
        lemma_range_count_congruent(n - 1, p, q);
    }
}

proof fn lemma_range_count_split(n: int, p: spec_fn(int) -> bool, q: spec_fn(int) -> bool, both: spec_fn(int) -> bool)
    requires
        forall|h: int| 0 <= h < n ==> #[trigger] both(h) == (p(h) || q(h)),
        forall|h: int| 0 <= h < n ==> !(#[trigger] p(h) && q(h)),
    ensures
        range_count(n, both) == range_count(n, p) + range_count(n, q),
    decreases n,
{
    if n > 0 {
        lemma_range_count_split(n - 1, p, q, both);
    }
}

proof fn lemma_range_count_bound(n: int, p: spec_fn(int) -> bool)
    requires
        0 <= n,
    ensures
        range_count(n, p) <= n,
    decreases n,
{
    if n > 0 {
        lemma_range_count_bound(n - 1, p);
    }
}

/// Counting over a strictly increasing list of indices below `n` counts the
/// indices below `n` that the list holds.
proof fn lemma_list_count(list: Seq<usize>, n: int, p: spec_fn(int) -> bool)
    requires
        increasing(list),
        forall|i: int| 0 <= i < list.len() ==> list[i] < n,
        n <= usize::MAX,
    ensures
        list_count(list, p) == range_count(n, |h: int| list.contains(h as usize) && 0 <= h && p(h)),
    decreases n,
{
    let q = |h: int| list.contains(h as usize) && 0 <= h && p(h);
    if n <= 0 {
        if list.len() > 0 {
            assert(list[0] < n);
        }
    } else if list.len() > 0 && list.last() == n - 1 {
        let rest = list.drop_last();
        let q_rest = |h: int| rest.contains(h as usize) && 0 <= h && p(h);
        assert forall|i: int| 0 <= i < rest.len() implies rest[i] < n - 1 by {
            assert(list[i] < list[list.len() - 1]);
        }
        lemma_list_count(rest, n - 1, p);
        assert forall|h: int| 0 <= h < n - 1 implies #[trigger] q_rest(h) == q(h) by {
            if list.contains(h as usize) {
                let i = choose|i: int| 0 <= i < list.len() && list[i] == h as usize;
                assert(i != list.len() - 1);
                assert(rest[i] == h as usize);
            }
            if rest.contains(h as usize) {
                let i = choose|i: int| 0 <= i < rest.len() && rest[i] == h as usize;
                assert(list[i] == h as usize);
            }
        }
        lemma_range_count_congruent(n - 1, q_rest, q);
        assert(list.contains((n - 1) as usize)) by {
            assert(list[list.len() - 1] == (n - 1) as usize);
        }
    } else {
        assert forall|i: int| 0 <= i < list.len() implies list[i] < n - 1 by {
            if list.len() > 0 {
                assert(list[i] <= list[list.len() - 1]);
            }
        }
        lemma_list_count(list, n - 1, p);
        if list.contains((n - 1) as usize) {
            let i = choose|i: int| 0 <= i < list.len() && list[i] == (n - 1) as usize;
            assert(list[i] < n - 1);
        }
    }
}

/// A horizontal or vertical piece of a routed edge, its coordinates given
/// by rank: `fixed` ranks its constant coordinate, `start` and `end` the two
/// ends of its span.
#[derive(Clone, Copy, Debug, PartialEq, Eq, Structural)]
pub struct RankedSegment {
    pub net: NetId,
    pub source: Endpoint,
    pub target: Endpoint,
    pub fixed: usize,
    pub start: usize,
    pub end: usize,
}

/// The key of an endpoint in a set of endpoints.
pub open spec fn endpoint_key(endpoint: Endpoint) -> (NodeId, PortId) {
    (endpoint.node, endpoint.port)
}

/// The piece belongs to an edge that ends at `endpoint`.
pub open spec fn touches(segment: RankedSegment, endpoint: Endpoint) -> bool {
    segment.source == endpoint || segment.target == endpoint
}

/// `h` and `v` belong to one net, or meet at an endpoint shared between nets.
pub open spec fn related(shared: Set<(NodeId, PortId)>, h: RankedSegment, v: RankedSegment) -> bool {
    ||| h.net == v.net
    ||| shared.contains(endpoint_key(v.source)) && touches(h, v.source)
    ||| shared.contains(endpoint_key(v.target)) && touches(h, v.target)
}

/// Horizontal `h` and vertical `v` cross: each passes strictly inside the
/// span of the other, and they are not related.
pub open spec fn crosses(shared: Set<(NodeId, PortId)>, h: RankedSegment, v: RankedSegment) -> bool {
    &&& h.start < v.fixed < h.end
    &&& v.start < h.fixed < v.end
    &&& !related(shared, h, v)
}

/// The crossings of vertical `v` with the horizontal pieces.
pub open spec fn crossings_of(shared: Set<(NodeId, PortId)>, horizontal: Seq<RankedSegment>, v: RankedSegment) -> nat {
    range_count(horizontal.len() as int, |h: int| crosses(shared, horizontal[h], v))
}

/// The crossings of each vertical piece.
pub open spec fn crossing_counts(
    shared: Set<(NodeId, PortId)>,
    horizontal: Seq<RankedSegment>,
    vertical: Seq<RankedSegment>,
) -> Seq<nat> {
    Seq::new(vertical.len(), |i: int| crossings_of(shared, horizontal, vertical[i]))
}

/// Sum of a sequence of counts.
pub open spec fn total_of(counts: Seq<nat>) -> nat
    decreases counts.len(),
{
    if counts.len() == 0 {
        0
    } else {
        total_of(counts.drop_last()) + counts.last()
    }
}

/// `buckets[x]` lists, in increasing order, the indices `i` below `count`
/// with `selected[i]` and `keys[i] == x`.
pub open spec fn buckets_hold(buckets: Seq<Vec<usize>>, keys: Seq<usize>, selected: Seq<bool>, count: int) -> bool {
    forall|x: int|
        0 <= x < buckets.len() ==> {
            &&& increasing((#[trigger] buckets[x])@)
            &&& forall|i: int| 0 <= i < buckets[x]@.len() ==> buckets[x]@[i] < count
            &&& forall|h: int| 0 <= h < count ==> (buckets[x]@.contains(h as usize) <==> selected[h] && keys[h] == x)
        }
}

/// The indices `i` with `selected[i]`, bucketed by `keys[i]` (each below
/// `rank_count`), each bucket in increasing order.
fn rank_buckets(keys: &Vec<usize>, selected: &Vec<bool>, rank_count: usize) -> (buckets: Vec<Vec<usize>>)
    requires
        keys@.len() == selected@.len(),
        forall|i: int| 0 <= i < keys@.len() ==> #[trigger] keys@[i] < rank_count,
    ensures
        buckets@.len() == rank_count,
        buckets_hold(buckets@, keys@, selected@, keys@.len() as int),
{
    let mut buckets: Vec<Vec<usize>> = Vec::new();
    let mut x: usize = 0;
    while x < rank_count
        invariant
            x <= rank_count,
            buckets@.len() == x,
            forall|y: int| 0 <= y < x ==> (#[trigger] buckets@[y])@.len() == 0,
        decreases rank_count - x,
    {
        buckets.push(Vec::new());
        x = x + 1;
    }
    let mut i: usize = 0;
    while i < keys.len()
        invariant
            i <= keys@.len(),
            keys@.len() == selected@.len(),
            forall|j: int| 0 <= j < keys@.len() ==> #[trigger] keys@[j] < rank_count,
            buckets@.len() == rank_count,
            buckets_hold(buckets@, keys@, selected@, i as int),
        decreases keys@.len() - i,
    {
        if selected[i] {
            let key = keys[i];
            let ghost before = buckets@;
            buckets[key].push(i);
            proof {
                assert forall|y: int| 0 <= y < buckets@.len() implies {
                    &&& increasing((#[trigger] buckets@[y])@)
                    &&& forall|j: int| 0 <= j < buckets@[y]@.len() ==> buckets@[y]@[j] < i + 1
                    &&& forall|h: int| 0 <= h < i + 1 ==> (buckets@[y]@.contains(h as usize) <==> selected@[h] && keys@[h] == y)
                } by {
                    if y == key {
                        let old_list = before[y]@;
                        assert(buckets@[y]@ == old_list.push(i));
                        assert forall|h: int| 0 <= h < i + 1 implies (buckets@[y]@.contains(h as usize) <==> selected@[h]
                            && keys@[h] == y) by {
                            if h < i {
                                if old_list.contains(h as usize) {
                                    let j = choose|j: int| 0 <= j < old_list.len() && old_list[j] == h as usize;
                                    assert(buckets@[y]@[j] == h as usize);
                                }
                                if buckets@[y]@.contains(h as usize) {
                                    let j = choose|j: int| 0 <= j < buckets@[y]@.len() && buckets@[y]@[j] == h as usize;
                                    if j < old_list.len() {
                                        assert(old_list[j] == h as usize);
                                    }
                                }
                            } else {
                                assert(buckets@[y]@[old_list.len() as int] == i);
                            }
                        }
                    } else {
                        assert(buckets@[y] == before[y]);
                    }
                }
            }
        } else {
            proof {
                assert forall|y: int| 0 <= y < buckets@.len() implies {
                    &&& increasing((#[trigger] buckets@[y])@)
                    &&& forall|j: int| 0 <= j < buckets@[y]@.len() ==> buckets@[y]@[j] < i + 1
                    &&& forall|h: int| 0 <= h < i + 1 ==> (buckets@[y]@.contains(h as usize) <==> selected@[h] && keys@[h] == y)
                } by {
                    if buckets@[y]@.contains(i) {
                        let j = choose|j: int| 0 <= j < buckets@[y]@.len() && buckets@[y]@[j] == i;
                    }
                }
            }
        }
        i = i + 1;
    }
    buckets
}

/// The list `index` keeps under `key`, empty when it keeps none.
pub open spec fn listed<K>(index: Map<K, Vec<usize>>, key: K) -> Seq<usize> {
    if index.contains_key(key) {
        index[key]@
    } else {
        Seq::empty()
    }
}

/// `index` keeps under each net, in increasing order, the horizontal pieces
/// among the first `count` that belong to that net.
pub open spec fn nets_indexed(index: Map<NetId, Vec<usize>>, horizontal: Seq<RankedSegment>, count: int) -> bool {
    forall|net: NetId|
        #![trigger listed(index, net)]
        {
            &&& increasing(listed(index, net))
            &&& forall|i: int| 0 <= i < listed(index, net).len() ==> listed(index, net)[i] < count
            &&& forall|h: int|
                0 <= h < count ==> (listed(index, net).contains(h as usize) <==> horizontal[h].net == net)
        }
}

/// `index` keeps under each shared endpoint, in increasing order, the
/// horizontal pieces among the first `count` whose edge ends there.
pub open spec fn endpoints_indexed(
    index: Map<(NodeId, PortId), Vec<usize>>,
    horizontal: Seq<RankedSegment>,
    shared: Set<(NodeId, PortId)>,
    count: int,
) -> bool {
    forall|key: (NodeId, PortId)|
        #![trigger listed(index, key)]
        {
            &&& increasing(listed(index, key))
            &&& forall|i: int| 0 <= i < listed(index, key).len() ==> listed(index, key)[i] < count
            &&& forall|h: int|
                0 <= h < count ==> (#[trigger] listed(index, key).contains(h as usize) <==> ends_at(
                    shared,
                    horizontal[h],
                    key,
                ))
        }
}

/// The edge of `segment` ends at the shared endpoint `key`.
pub open spec fn ends_at(shared: Set<(NodeId, PortId)>, segment: RankedSegment, key: (NodeId, PortId)) -> bool {
    shared.contains(key) && (endpoint_key(segment.source) == key || endpoint_key(segment.target) == key)
}

/// Puts `h` at the end of the list kept under `key`.
fn push_listed<K: Ord + Copy>(index: &mut BTreeMap<K, Vec<usize>>, key: K, h: usize)
    requires
        vstd::laws_cmp::obeys_cmp::<K>(),
    ensures
        listed(final(index)@, key) == listed(old(index)@, key).push(h),
        forall|other: K| other != key ==> #[trigger] listed(final(index)@, other) == listed(old(index)@, other),
{
    let mut list = match index.remove(&key) {
        Some(list) => list,
        None => Vec::new(),
    };
    list.push(h);
    index.insert(key, list);
}

/// The horizontal pieces of each net.
fn net_index(horizontal: &[RankedSegment]) -> (index: BTreeMap<NetId, Vec<usize>>)
    ensures
        nets_indexed(index@, horizontal@, horizontal@.len() as int),
{
    let mut index: BTreeMap<NetId, Vec<usize>> = BTreeMap::new();
    let mut h: usize = 0;
    while h < horizontal.len()
        invariant
            h <= horizontal@.len(),
            nets_indexed(index@, horizontal@, h as int),
        decreases horizontal@.len() - h,
    {
        let net = horizontal[h].net;
        let ghost before = index@;
        proof {
            lemma_ids_ordered();
        }
        push_listed(&mut index, net, h);
        proof {
            assert forall|n: NetId| #![trigger listed(index@, n)] {
                &&& increasing(listed(index@, n))
                &&& forall|i: int| 0 <= i < listed(index@, n).len() ==> listed(index@, n)[i] < h + 1
                &&& forall|g: int| 0 <= g < h + 1 ==> (listed(index@, n).contains(g as usize) <==> horizontal@[g].net == n)
            } by {
                lemma_listed_push(listed(before, n), listed(index@, n), h, n == net);
                if n == net {
                    assert(listed(before, n).len() == 0 || listed(before, n).last() < h);
                }
                assert forall|g: int| 0 <= g < h + 1 implies (listed(index@, n).contains(g as usize) <==> horizontal@[g].net
                    == n) by {
                    if g < h {
                        assert(listed(before, n).contains(g as usize) <==> horizontal@[g].net == n);
                    }
                }
            }
        }
        h = h + 1;
    }
    index
}

/// What pushing `h` (above every entry) onto a list, or leaving it, keeps.
proof fn lemma_listed_push(before: Seq<usize>, after: Seq<usize>, h: usize, pushed: bool)
    requires
        increasing(before),
        forall|i: int| 0 <= i < before.len() ==> before[i] < h,
        pushed ==> after == before.push(h),
        !pushed ==> after == before,
    ensures
        increasing(after),
        forall|i: int| 0 <= i < after.len() ==> after[i] < h + 1,
        forall|g: int| 0 <= g < h ==> (#[trigger] after.contains(g as usize) <==> before.contains(g as usize)),
        after.contains(h) <==> pushed,
{
    assert forall|g: int| 0 <= g < h implies (#[trigger] after.contains(g as usize) <==> before.contains(g as usize)) by {
        if after.contains(g as usize) {
            let i = choose|i: int| 0 <= i < after.len() && after[i] == g as usize;
            if pushed && i == before.len() {
                assert(after[i] == h);
            } else {
                assert(before[i] == g as usize);
            }
        }
        if before.contains(g as usize) {
            let i = choose|i: int| 0 <= i < before.len() && before[i] == g as usize;
            assert(after[i] == g as usize);
        }
    }
    if pushed {
        assert(after[before.len() as int] == h);
    } else if after.contains(h) {
        let i = choose|i: int| 0 <= i < after.len() && after[i] == h;
        assert(before[i] < h);
    }
}

/// Endpoint keys obey the ordering laws that the map and set specifications
/// rest on.
proof fn lemma_endpoint_keys_ordered()
    ensures
        vstd::laws_cmp::obeys_cmp::<(NodeId, PortId)>(),
        vstd::std_specs::btree::key_obeys_cmp_spec::<(NodeId, PortId)>(),
{
    broadcast use vstd::laws_cmp::group_laws_cmp;
    assert(vstd::laws_cmp::obeys_cmp::<(u32, u32)>());
}

/// The horizontal pieces at each shared endpoint.
fn endpoint_index(horizontal: &[RankedSegment], shared: &BTreeSet<(NodeId, PortId)>) -> (index: BTreeMap<
    (NodeId, PortId),
    Vec<usize>,
>)
    ensures
        endpoints_indexed(index@, horizontal@, shared@, horizontal@.len() as int),
{
    let mut index: BTreeMap<(NodeId, PortId), Vec<usize>> = BTreeMap::new();
    let mut h: usize = 0;
    while h < horizontal.len()
        invariant
            h <= horizontal@.len(),
            endpoints_indexed(index@, horizontal@, shared@, h as int),
        decreases horizontal@.len() - h,
    {
        proof {
            lemma_endpoint_keys_ordered();
        }
        let segment = horizontal[h];
        let source = (segment.source.node, segment.source.port);
        let target = (segment.target.node, segment.target.port);
        let ghost before = index@;
        assert(endpoints_indexed(before, horizontal@, shared@, h as int));
        let push_source = shared.contains(&source);
        if push_source {
            push_listed(&mut index, source, h);
        }
        let ghost middle = index@;
        let push_target = segment.target != segment.source && shared.contains(&target);
        if push_target {
            push_listed(&mut index, target, h);
        }
        proof {
            assert(push_target ==> target != source);
            assert forall|key: (NodeId, PortId)| #![trigger listed(index@, key)] {
                &&& increasing(listed(index@, key))
                &&& forall|i: int| 0 <= i < listed(index@, key).len() ==> listed(index@, key)[i] < h + 1
                &&& forall|g: int|
                    0 <= g < h + 1 ==> (#[trigger] listed(index@, key).contains(g as usize) <==> ends_at(
                        shared@,
                        horizontal@[g],
                        key,
                    ))
            } by {
                let pushed = (push_source && key == source) || (push_target && key == target);
                assert(listed(before, key).len() == 0 || listed(before, key).last() < h);
                if push_source && key == source {
                    assert(listed(middle, key) == listed(before, key).push(h));
                    assert(listed(index@, key) == listed(middle, key));
                } else if push_target && key == target {
                    assert(listed(middle, key) == listed(before, key));
                    assert(listed(index@, key) == listed(middle, key).push(h));
                } else {
                    assert(listed(middle, key) == listed(before, key));
                    assert(listed(index@, key) == listed(middle, key));
                }
                lemma_listed_push(listed(before, key), listed(index@, key), h, pushed);
                assert forall|g: int| 0 <= g < h + 1 implies (#[trigger] listed(index@, key).contains(g as usize) <==> ends_at(
                    shared@,
                    horizontal@[g],
                    key,
                )) by {
                    if g < h {
                        assert(listed(before, key).contains(g as usize) <==> ends_at(shared@, horizontal@[g], key));
                    } else {
                        assert(endpoint_key(segment.source) == source);
                        assert(endpoint_key(segment.target) == target);
                        if segment.target == segment.source {
                            assert(target == source);
                        }
                    }
                }
            }
        }
        h = h + 1;
    }
    index
}

/// Horizontal `h` is active and passes strictly inside the span of `v`.
pub open spec fn in_window(active: Seq<bool>, horizontal: Seq<RankedSegment>, v: RankedSegment, h: int) -> bool {
    active[h] && v.start < horizontal[h].fixed < v.end
}

/// What a scan of one index list counts: horizontals in the window of `v`,
/// leaving out those of the net of `v` when `skip_net`, and those whose edge
/// ends at `skip_touching` when there is one.
pub open spec fn scan_counts(
    active: Seq<bool>,
    horizontal: Seq<RankedSegment>,
    v: RankedSegment,
    skip_net: bool,
    skip_touching: Option<Endpoint>,
    h: int,
) -> bool {
    &&& in_window(active, horizontal, v, h)
    &&& skip_net ==> horizontal[h].net != v.net
    &&& match skip_touching {
        Some(endpoint) => !touches(horizontal[h], endpoint),
        None => true,
    }
}

/// Counts the horizontals of `list` that `scan_counts` admits.
fn count_scanned(
    list: &Vec<usize>,
    horizontal: &[RankedSegment],
    active: &Vec<bool>,
    v: RankedSegment,
    skip_net: bool,
    skip_touching: Option<Endpoint>,
) -> (count: usize)
    requires
        active@.len() == horizontal@.len(),
        forall|i: int| 0 <= i < list@.len() ==> list@[i] < horizontal@.len(),
    ensures
        count == list_count(list@, |h: int| scan_counts(active@, horizontal@, v, skip_net, skip_touching, h)),
{
    let ghost p = |h: int| scan_counts(active@, horizontal@, v, skip_net, skip_touching, h);
    let mut count: usize = 0;
    let mut k: usize = 0;
    while k < list.len()
        invariant
            k <= list@.len(),
            active@.len() == horizontal@.len(),
            forall|i: int| 0 <= i < list@.len() ==> list@[i] < horizontal@.len(),
            p == (|h: int| scan_counts(active@, horizontal@, v, skip_net, skip_touching, h)),
            count <= k,
            count == list_count(list@.take(k as int), p),
        decreases list@.len() - k,
    {
        let c = list[k];
        let segment = horizontal[c];
        let admitted = active[c] && v.start < segment.fixed && segment.fixed < v.end && (!skip_net || segment.net
            != v.net) && match skip_touching {
            Some(endpoint) => !(segment.source == endpoint || segment.target == endpoint),
            None => true,
        };
        proof {
            assert(list@.take(k + 1).drop_last() =~= list@.take(k as int));
            assert(list@.take(k + 1).last() == c);
            assert(admitted == p(c as int));
        }
        if admitted {
            count = count + 1;
        }
        k = k + 1;
    }
    assert(list@.take(k as int) =~= list@);
    count
}

proof fn lemma_range_count_none(n: int, p: spec_fn(int) -> bool)
    requires
        forall|h: int| 0 <= h < n ==> !#[trigger] p(h),
    ensures
        range_count(n, p) == 0,
    decreases n,
{
    if n > 0 {
        lemma_range_count_none(n - 1, p);
    }
}

/// The horizontals in the window of a vertical `v` split into those of its
/// net, those at its source (shared), those at its target (shared), and its
/// crossings, when exactly the horizontals spanning the abscissa of `v` are
/// active.
proof fn lemma_window_split(shared: Set<(NodeId, PortId)>, horizontal: Seq<RankedSegment>, active: Seq<bool>, v: RankedSegment)
    requires
        active.len() == horizontal.len(),
        forall|h: int|
            0 <= h < horizontal.len() ==> (#[trigger] active[h] <==> horizontal[h].start < v.fixed < horizontal[h].end),
    ensures
        ({
            let n = horizontal.len() as int;
            let s = shared.contains(endpoint_key(v.source));
            let t = shared.contains(endpoint_key(v.target));
            range_count(n, |h: int| in_window(active, horizontal, v, h)) == range_count(
                n,
                |h: int| in_window(active, horizontal, v, h) && horizontal[h].net == v.net,
            ) + range_count(
                n,
                |h: int| in_window(active, horizontal, v, h) && horizontal[h].net != v.net && s && touches(horizontal[h], v.source),
            ) + range_count(
                n,
                |h: int|
                    in_window(active, horizontal, v, h) && horizontal[h].net != v.net && !(s && touches(
                        horizontal[h],
                        v.source,
                    )) && t && touches(horizontal[h], v.target),
            ) + crossings_of(shared, horizontal, v)
        }),
{
    let n = horizontal.len() as int;
    let s = shared.contains(endpoint_key(v.source));
    let t = shared.contains(endpoint_key(v.target));
    let w = |h: int| in_window(active, horizontal, v, h);
    let w_net = |h: int| in_window(active, horizontal, v, h) && horizontal[h].net == v.net;
    let w_source = |h: int| in_window(active, horizontal, v, h) && horizontal[h].net != v.net && s && touches(horizontal[h], v.source);
    let w_target = |h: int|
        in_window(active, horizontal, v, h) && horizontal[h].net != v.net && !(s && touches(horizontal[h], v.source)) && t
            && touches(horizontal[h], v.target);
    let w_ends = |h: int| w_source(h) || w_target(h);
    let w_related = |h: int| w_net(h) || w_ends(h);
    let w_free = |h: int| in_window(active, horizontal, v, h) && !related(shared, horizontal[h], v);
    let crossing = |h: int| crosses(shared, horizontal[h], v);
    lemma_range_count_split(n, w_source, w_target, w_ends);
    lemma_range_count_split(n, w_net, w_ends, w_related);
    assert forall|h: int| 0 <= h < n implies #[trigger] w(h) == (w_related(h) || w_free(h)) by {}
    lemma_range_count_split(n, w_related, w_free, w);
    assert forall|h: int| 0 <= h < n implies #[trigger] w_free(h) == crossing(h) by {
        assert(active[h] <==> horizontal[h].start < v.fixed < horizontal[h].end);
    }
    lemma_range_count_congruent(n, w_free, crossing);
}

proof fn lemma_scan_count(list: Seq<usize>, n: int, p: spec_fn(int) -> bool, q: spec_fn(int) -> bool)
    requires
        increasing(list),
        forall|i: int| 0 <= i < list.len() ==> list[i] < n,
        n <= usize::MAX,
        forall|h: int| 0 <= h < n ==> #[trigger] q(h) == (list.contains(h as usize) && p(h)),
    ensures
        list_count(list, p) == range_count(n, q),
{
    lemma_list_count(list, n, p);
    let listed_p = |h: int| list.contains(h as usize) && 0 <= h && p(h);
    assert forall|h: int| 0 <= h < n implies #[trigger] listed_p(h) == q(h) by {}
    lemma_range_count_congruent(n, listed_p, q);
}

/// Number of active horizontals whose abscissa rank lies in `lo .. hi`.
pub open spec fn active_count(active: Seq<bool>, horizontal: Seq<RankedSegment>, lo: int, hi: int) -> nat {
    range_count(horizontal.len() as int, |h: int| active[h] && lo <= horizontal[h].fixed < hi)
}

/// The counter holds, for every range of ranks, the active horizontals in it.
pub open spec fn tree_counts_active(tree: Seq<int>, active: Seq<bool>, horizontal: Seq<RankedSegment>) -> bool {
    forall|lo: int, hi: int|
        0 <= lo <= hi <= tree.len() ==> #[trigger] count_sum(tree, lo, hi) == active_count(active, horizontal, lo, hi)
}

/// The crossings of vertical `v`, when exactly the horizontals spanning its
/// abscissa are active and counted by `tree`.
fn vertical_crossings(
    shared: &BTreeSet<(NodeId, PortId)>,
    horizontal: &[RankedSegment],
    v: RankedSegment,
    active: &Vec<bool>,
    tree: &CrossingFenwick,
    by_net: &BTreeMap<NetId, Vec<usize>>,
    by_endpoint: &BTreeMap<(NodeId, PortId), Vec<usize>>,
) -> (count: usize)
    requires
        active@.len() == horizontal@.len(),
        horizontal@.len() < usize::MAX,
        tree.wf(),
        v.end <= tree@.len(),
        tree_counts_active(tree@, active@, horizontal@),
        forall|h: int|
            0 <= h < horizontal@.len() ==> (#[trigger] active@[h] <==> horizontal@[h].start < v.fixed < horizontal@[h].end),
        nets_indexed(by_net@, horizontal@, horizontal@.len() as int),
        endpoints_indexed(by_endpoint@, horizontal@, shared@, horizontal@.len() as int),
    ensures
        count == crossings_of(shared@, horizontal@, v),
{
    let ghost n = horizontal@.len() as int;
    let ghost crossing = |h: int| crosses(shared@, horizontal@[h], v);
    if v.start >= v.end {
        proof {
            lemma_range_count_none(n, crossing);
        }
        return 0;
    }
    let lo = v.start + 1;
    let hi = v.end;
    let ghost w = |h: int| in_window(active@, horizontal@, v, h);
    proof {
        lemma_count_sum_split(tree@, 0, lo as int, hi as int);
        assert(count_sum(tree@, 0, hi as int) == active_count(active@, horizontal@, 0, hi as int));
        assert(count_sum(tree@, 0, lo as int) == active_count(active@, horizontal@, 0, lo as int));
        assert(count_sum(tree@, lo as int, hi as int) == active_count(active@, horizontal@, lo as int, hi as int));
        lemma_range_count_bound(n, |h: int| active@[h] && 0 <= horizontal@[h].fixed < hi);
        lemma_range_count_bound(n, |h: int| active@[h] && 0 <= horizontal@[h].fixed < lo);
        let in_range = |h: int| active@[h] && lo <= horizontal@[h].fixed < hi;
        assert forall|h: int| 0 <= h < n implies #[trigger] in_range(h) == w(h) by {}
        lemma_range_count_congruent(n, in_range, w);
        lemma_window_split(shared@, horizontal@, active@, v);
    }
    let window = tree.prefix(hi) - tree.prefix(lo);
    if window == 0 {
        return 0;
    }
    proof {
        lemma_ids_ordered();
        lemma_endpoint_keys_ordered();
    }
    let ghost s = shared@.contains(endpoint_key(v.source));
    let ghost t = shared@.contains(endpoint_key(v.target));
    let ghost net_list = listed(by_net@, v.net);
    let same = match by_net.get(&v.net) {
        Some(list) => count_scanned(list, horizontal, active, v, false, None),
        None => 0,
    };
    proof {
        assert(nets_indexed(by_net@, horizontal@, n));
        assert(increasing(net_list));
        lemma_scan_count(
            net_list,
            n,
            |h: int| scan_counts(active@, horizontal@, v, false, None, h),
            |h: int| in_window(active@, horizontal@, v, h) && horizontal@[h].net == v.net,
        );
    }
    let source_key = (v.source.node, v.source.port);
    let source_shared = shared.contains(&source_key);
    let ghost source_list = listed(by_endpoint@, source_key);
    let at_source = match by_endpoint.get(&source_key) {
        Some(list) => count_scanned(list, horizontal, active, v, true, None),
        None => 0,
    };
    proof {
        assert(endpoints_indexed(by_endpoint@, horizontal@, shared@, n));
        assert(increasing(source_list));
        assert(source_key == endpoint_key(v.source));
        assert forall|h: int| 0 <= h < n implies (#[trigger] source_list.contains(h as usize) <==> s && touches(
            horizontal@[h],
            v.source,
        )) by {
            assert(source_list.contains(h as usize) <==> ends_at(shared@, horizontal@[h], source_key));
        }
        lemma_scan_count(
            source_list,
            n,
            |h: int| scan_counts(active@, horizontal@, v, true, None, h),
            |h: int|
                in_window(active@, horizontal@, v, h) && horizontal@[h].net != v.net && s && touches(horizontal@[h], v.source),
        );
    }
    let target_key = (v.target.node, v.target.port);
    let ghost target_list = listed(by_endpoint@, target_key);
    let skip = if source_shared {
        Some(v.source)
    } else {
        None
    };
    let ghost w_target = |h: int|
        in_window(active@, horizontal@, v, h) && horizontal@[h].net != v.net && !(s && touches(horizontal@[h], v.source))
            && t && touches(horizontal@[h], v.target);
    let at_target = if v.target != v.source {
        match by_endpoint.get(&target_key) {
            Some(list) => count_scanned(list, horizontal, active, v, true, skip),
            None => 0,
        }
    } else {
        0
    };
    proof {
        if v.target != v.source {
            assert(increasing(target_list));
            assert(target_key == endpoint_key(v.target));
            assert forall|h: int| 0 <= h < n implies (#[trigger] target_list.contains(h as usize) <==> t && touches(
                horizontal@[h],
                v.target,
            )) by {
                assert(target_list.contains(h as usize) <==> ends_at(shared@, horizontal@[h], target_key));
            }
            lemma_scan_count(target_list, n, |h: int| scan_counts(active@, horizontal@, v, true, skip, h), w_target);
        } else {
            lemma_range_count_none(n, w_target);
        }
    }
    window - same - at_source - at_target
}

proof fn lemma_range_count_change(n: int, p: spec_fn(int) -> bool, q: spec_fn(int) -> bool, changed: int)
    requires
        0 <= changed < n,
        forall|h: int| 0 <= h < n && h != changed ==> #[trigger] p(h) == q(h),
    ensures
        range_count(n, q) + (if p(changed) {
            1int
        } else {
            0int
        }) == range_count(n, p) + (if q(changed) {
            1int
        } else {
            0int
        }),
    decreases n,
{
    if n - 1 > changed {
        lemma_range_count_change(n - 1, p, q, changed);
    } else {
        lemma_range_count_congruent(n - 1, p, q);
    }
}

proof fn lemma_count_sum_single(counts: Seq<int>, index: int)
    ensures
        count_sum(counts, index, index + 1) == counts[index],
{
    assert(count_sum(counts, index, index) == 0);
}

/// The piece spans a nonempty range of ranks.
pub open spec fn spans(segment: RankedSegment) -> bool {
    segment.start < segment.end
}

/// What flipping horizontal `h` in `active` does to the counts of every
/// rank range, and with it to the counter.
proof fn lemma_flip_keeps_counts(
    tree: Seq<int>,
    next_tree: Seq<int>,
    active: Seq<bool>,
    next_active: Seq<bool>,
    horizontal: Seq<RankedSegment>,
    h: int,
    delta: int,
)
    requires
        tree_counts_active(tree, active, horizontal),
        active.len() == horizontal.len(),
        0 <= h < horizontal.len(),
        0 <= horizontal[h].fixed < tree.len(),
        delta == 1 ==> !active[h] && next_active == active.update(h, true),
        delta == -1 ==> active[h] && next_active == active.update(h, false),
        delta == 1 || delta == -1,
        next_tree == tree.update(horizontal[h].fixed as int, tree[horizontal[h].fixed as int] + delta),
    ensures
        tree_counts_active(next_tree, next_active, horizontal),
{
    let y = horizontal[h].fixed as int;
    let n = horizontal.len() as int;
    assert forall|lo: int, hi: int| 0 <= lo <= hi <= next_tree.len() implies #[trigger] count_sum(next_tree, lo, hi)
        == active_count(next_active, horizontal, lo, hi) by {
        lemma_count_sum_update(tree, y, delta, lo, hi);
        assert(count_sum(tree, lo, hi) == active_count(active, horizontal, lo, hi));
        let p = |g: int| active[g] && lo <= horizontal[g].fixed < hi;
        let q = |g: int| next_active[g] && lo <= horizontal[g].fixed < hi;
        assert forall|g: int| 0 <= g < n && g != h implies #[trigger] p(g) == q(g) by {}
        lemma_range_count_change(n, p, q, h);
    }
}

/// Takes the horizontals of `bucket` (those spanning, ending at rank `x`)
/// out of `active` and the counter.
fn remove_ending(
    horizontal: &[RankedSegment],
    bucket: &Vec<usize>,
    x: usize,
    tree: &mut CrossingFenwick,
    active: &mut Vec<bool>,
)
    requires
        old(tree).wf(),
        old(active)@.len() == horizontal@.len(),
        horizontal@.len() < usize::MAX,
        forall|h: int| 0 <= h < horizontal@.len() ==> #[trigger] horizontal@[h].fixed < old(tree)@.len(),
        tree_counts_active(old(tree)@, old(active)@, horizontal@),
        increasing(bucket@),
        forall|i: int| 0 <= i < bucket@.len() ==> bucket@[i] < horizontal@.len(),
        forall|h: int|
            0 <= h < horizontal@.len() ==> (#[trigger] bucket@.contains(h as usize) <==> spans(horizontal@[h])
                && horizontal@[h].end == x),
        forall|h: int|
            0 <= h < horizontal@.len() ==> #[trigger] old(active)@[h] == (spans(horizontal@[h]) && horizontal@[h].start
                < x && x <= horizontal@[h].end),
    ensures
        final(tree).wf(),
        final(tree)@.len() == old(tree)@.len(),
        final(active)@.len() == horizontal@.len(),
        tree_counts_active(final(tree)@, final(active)@, horizontal@),
        forall|h: int|
            0 <= h < horizontal@.len() ==> #[trigger] final(active)@[h] == (spans(horizontal@[h]) && horizontal@[h].start
                < x && x < horizontal@[h].end),
{
    let ghost n = horizontal@.len() as int;
    let mut k: usize = 0;
    while k < bucket.len()
        invariant
            k <= bucket@.len(),
            tree.wf(),
            tree@.len() == old(tree)@.len(),
            active@.len() == horizontal@.len(),
            n == horizontal@.len(),
            n < usize::MAX,
            forall|h: int| 0 <= h < n ==> #[trigger] horizontal@[h].fixed < tree@.len(),
            tree_counts_active(tree@, active@, horizontal@),
            increasing(bucket@),
            forall|i: int| 0 <= i < bucket@.len() ==> bucket@[i] < n,
            forall|h: int|
                0 <= h < n ==> (#[trigger] bucket@.contains(h as usize) <==> spans(horizontal@[h]) && horizontal@[h].end
                    == x),
            forall|h: int|
                0 <= h < n ==> #[trigger] active@[h] == (spans(horizontal@[h]) && horizontal@[h].start < x && x
                    <= horizontal@[h].end && !bucket@.take(k as int).contains(h as usize)),
        decreases bucket@.len() - k,
    {
        let h = bucket[k];
        let y = horizontal[h].fixed;
        proof {
            let hi = h as int;
            assert(bucket@[k as int] == h);
            assert(bucket@.contains(hi as usize));
            assert(!bucket@.take(k as int).contains(h)) by {
                if bucket@.take(k as int).contains(h) {
                    let i = choose|i: int| 0 <= i < k && #[trigger] bucket@.take(k as int)[i] == h;
                    assert(bucket@[i] < bucket@[k as int]);
                }
            }
            assert(active@[h as int]);
            let counts = tree@;
            assert forall|i: int| 0 <= i < counts.len() implies counts[i] >= 0 by {
                lemma_count_sum_single(counts, i);
                assert(count_sum(counts, i, i + 1) == active_count(active@, horizontal@, i, i + 1));
            }
            lemma_count_sum_single(counts, y as int);
            assert(count_sum(counts, y as int, y + 1) == active_count(active@, horizontal@, y as int, y + 1));
            let here = |g: int| active@[g] && y <= horizontal@[g].fixed < y + 1;
            let others = |g: int| g != h && active@[g] && y <= horizontal@[g].fixed < y + 1;
            lemma_range_count_change(n, here, others, h as int);
            lemma_removable_when_counted(counts, y as int);
        }
        let ghost before_tree = tree@;
        let ghost before_active = active@;
        tree.remove(y);
        active.set(h, false);
        proof {
            lemma_flip_keeps_counts(before_tree, tree@, before_active, active@, horizontal@, h as int, -1);
            assert(bucket@.take(k + 1) =~= bucket@.take(k as int).push(h));
            assert forall|g: int| 0 <= g < n implies #[trigger] active@[g] == (spans(horizontal@[g]) && horizontal@[g].start
                < x && x <= horizontal@[g].end && !bucket@.take(k + 1).contains(g as usize)) by {
                if g != h {
                    assert(bucket@.take(k + 1).contains(g as usize) <==> bucket@.take(k as int).contains(g as usize)) by {
                        if bucket@.take(k + 1).contains(g as usize) {
                            let i = choose|i: int| 0 <= i < k + 1 && #[trigger] bucket@.take(k + 1)[i] == g as usize;
                            assert(bucket@.take(k as int)[i] == g as usize);
                        }
                        if bucket@.take(k as int).contains(g as usize) {
                            let i = choose|i: int| 0 <= i < k && #[trigger] bucket@.take(k as int)[i] == g as usize;
                            assert(bucket@.take(k + 1)[i] == g as usize);
                        }
                    }
                } else {
                    assert(bucket@.take(k + 1)[k as int] == h);
                }
            }
        }
        k = k + 1;
    }
    proof {
        assert(bucket@.take(k as int) =~= bucket@);
    }
}

/// Puts the horizontals of `bucket` (those spanning, starting at rank `x`)
/// into `active` and the counter.
fn add_starting(
    horizontal: &[RankedSegment],
    bucket: &Vec<usize>,
    x: usize,
    tree: &mut CrossingFenwick,
    active: &mut Vec<bool>,
)
    requires
        old(tree).wf(),
        old(active)@.len() == horizontal@.len(),
        horizontal@.len() < usize::MAX,
        forall|h: int| 0 <= h < horizontal@.len() ==> #[trigger] horizontal@[h].fixed < old(tree)@.len(),
        tree_counts_active(old(tree)@, old(active)@, horizontal@),
        increasing(bucket@),
        forall|i: int| 0 <= i < bucket@.len() ==> bucket@[i] < horizontal@.len(),
        forall|h: int|
            0 <= h < horizontal@.len() ==> (#[trigger] bucket@.contains(h as usize) <==> spans(horizontal@[h])
                && horizontal@[h].start == x),
        forall|h: int|
            0 <= h < horizontal@.len() ==> #[trigger] old(active)@[h] == (spans(horizontal@[h]) && horizontal@[h].start
                < x && x < horizontal@[h].end),
    ensures
        final(tree).wf(),
        final(tree)@.len() == old(tree)@.len(),
        final(active)@.len() == horizontal@.len(),
        tree_counts_active(final(tree)@, final(active)@, horizontal@),
        forall|h: int|
            0 <= h < horizontal@.len() ==> #[trigger] final(active)@[h] == (spans(horizontal@[h]) && horizontal@[h].start
                <= x && x < horizontal@[h].end),
{
    let ghost n = horizontal@.len() as int;
    let mut k: usize = 0;
    while k < bucket.len()
        invariant
            k <= bucket@.len(),
            tree.wf(),
            tree@.len() == old(tree)@.len(),
            active@.len() == horizontal@.len(),
            n == horizontal@.len(),
            n < usize::MAX,
            forall|h: int| 0 <= h < n ==> #[trigger] horizontal@[h].fixed < tree@.len(),
            tree_counts_active(tree@, active@, horizontal@),
            increasing(bucket@),
            forall|i: int| 0 <= i < bucket@.len() ==> bucket@[i] < n,
            forall|h: int|
                0 <= h < n ==> (#[trigger] bucket@.contains(h as usize) <==> spans(horizontal@[h])
                    && horizontal@[h].start == x),
            forall|h: int|
                0 <= h < n ==> #[trigger] active@[h] == (spans(horizontal@[h]) && ((horizontal@[h].start < x && x
                    < horizontal@[h].end) || (horizontal@[h].start == x && bucket@.take(k as int).contains(h as usize)))),
        decreases bucket@.len() - k,
    {
        let h = bucket[k];
        let y = horizontal[h].fixed;
        proof {
            let hi = h as int;
            assert(bucket@[k as int] == h);
            assert(bucket@.contains(hi as usize));
            assert(!bucket@.take(k as int).contains(h)) by {
                if bucket@.take(k as int).contains(h) {
                    let i = choose|i: int| 0 <= i < k && #[trigger] bucket@.take(k as int)[i] == h;
                    assert(bucket@[i] < bucket@[k as int]);
                }
            }
            assert(!active@[h as int]);
            let counts = tree@;
            assert forall|i: int| 0 <= i < counts.len() implies counts[i] >= 0 by {
                lemma_count_sum_single(counts, i);
                assert(count_sum(counts, i, i + 1) == active_count(active@, horizontal@, i, i + 1));
            }
            assert(count_sum(counts, 0, counts.len() as int) == active_count(active@, horizontal@, 0, counts.len() as int));
            lemma_range_count_bound(n, |g: int| active@[g] && 0 <= horizontal@[g].fixed < counts.len());
            lemma_addable_when_total_fits(counts, y as int);
        }
        let ghost before_tree = tree@;
        let ghost before_active = active@;
        tree.add(y);
        active.set(h, true);
        proof {
            lemma_flip_keeps_counts(before_tree, tree@, before_active, active@, horizontal@, h as int, 1);
            assert(bucket@.take(k + 1) =~= bucket@.take(k as int).push(h));
            assert forall|g: int| 0 <= g < n implies #[trigger] active@[g] == (spans(horizontal@[g]) && ((
            horizontal@[g].start < x && x < horizontal@[g].end) || (horizontal@[g].start == x && bucket@.take(
                k + 1,
            ).contains(g as usize)))) by {
                if g != h {
                    assert(bucket@.take(k + 1).contains(g as usize) <==> bucket@.take(k as int).contains(g as usize)) by {
                        if bucket@.take(k + 1).contains(g as usize) {
                            let i = choose|i: int| 0 <= i < k + 1 && #[trigger] bucket@.take(k + 1)[i] == g as usize;
                            assert(bucket@.take(k as int)[i] == g as usize);
                        }
                        if bucket@.take(k as int).contains(g as usize) {
                            let i = choose|i: int| 0 <= i < k && #[trigger] bucket@.take(k as int)[i] == g as usize;
                            assert(bucket@.take(k + 1)[i] == g as usize);
                        }
                    }
                } else {
                    assert(bucket@.take(k + 1)[k as int] == h);
                }
            }
        }
        k = k + 1;
    }
    proof {
        assert(bucket@.take(k as int) =~= bucket@);
    }
}

/// Records the crossings of the verticals of `bucket` (those at rank `x`),
/// while exactly the horizontals spanning `x` are active.
fn count_at(
    shared: &BTreeSet<(NodeId, PortId)>,
    horizontal: &[RankedSegment],
    vertical: &[RankedSegment],
    bucket: &Vec<usize>,
    x: usize,
    tree: &CrossingFenwick,
    active: &Vec<bool>,
    by_net: &BTreeMap<NetId, Vec<usize>>,
    by_endpoint: &BTreeMap<(NodeId, PortId), Vec<usize>>,
    counts: &mut Vec<usize>,
)
    requires
        active@.len() == horizontal@.len(),
        horizontal@.len() < usize::MAX,
        tree.wf(),
        tree_counts_active(tree@, active@, horizontal@),
        forall|h: int|
            0 <= h < horizontal@.len() ==> #[trigger] active@[h] == (spans(horizontal@[h]) && horizontal@[h].start < x
                && x < horizontal@[h].end),
        nets_indexed(by_net@, horizontal@, horizontal@.len() as int),
        endpoints_indexed(by_endpoint@, horizontal@, shared@, horizontal@.len() as int),
        increasing(bucket@),
        forall|k: int| 0 <= k < bucket@.len() ==> bucket@[k] < vertical@.len(),
        forall|i: int| 0 <= i < vertical@.len() ==> (#[trigger] bucket@.contains(i as usize) <==> vertical@[i].fixed == x),
        forall|i: int| 0 <= i < vertical@.len() ==> #[trigger] vertical@[i].end <= tree@.len(),
        old(counts)@.len() == vertical@.len(),
    ensures
        final(counts)@.len() == vertical@.len(),
        forall|i: int|
            0 <= i < vertical@.len() ==> #[trigger] final(counts)@[i] == if vertical@[i].fixed == x {
                crossings_of(shared@, horizontal@, vertical@[i]) as int
            } else {
                old(counts)@[i] as int
            },
{
    let mut k: usize = 0;
    while k < bucket.len()
        invariant
            k <= bucket@.len(),
            active@.len() == horizontal@.len(),
            horizontal@.len() < usize::MAX,
            tree.wf(),
            tree_counts_active(tree@, active@, horizontal@),
            forall|h: int|
                0 <= h < horizontal@.len() ==> #[trigger] active@[h] == (spans(horizontal@[h]) && horizontal@[h].start
                    < x && x < horizontal@[h].end),
            nets_indexed(by_net@, horizontal@, horizontal@.len() as int),
            endpoints_indexed(by_endpoint@, horizontal@, shared@, horizontal@.len() as int),
            increasing(bucket@),
            forall|j: int| 0 <= j < bucket@.len() ==> bucket@[j] < vertical@.len(),
            forall|i: int| 0 <= i < vertical@.len() ==> (#[trigger] bucket@.contains(i as usize) <==> vertical@[i].fixed == x),
            forall|i: int| 0 <= i < vertical@.len() ==> #[trigger] vertical@[i].end <= tree@.len(),
            counts@.len() == vertical@.len(),
            forall|i: int|
                0 <= i < vertical@.len() ==> #[trigger] counts@[i] == if bucket@.take(k as int).contains(i as usize) {
                    crossings_of(shared@, horizontal@, vertical@[i]) as int
                } else {
                    old(counts)@[i] as int
                },
        decreases bucket@.len() - k,
    {
        let i = bucket[k];
        let v = vertical[i];
        proof {
            let ii = i as int;
            assert(bucket@.contains(ii as usize));
            assert(v.fixed == x);
            assert forall|h: int| 0 <= h < horizontal@.len() implies (#[trigger] active@[h] <==> horizontal@[h].start
                < v.fixed < horizontal@[h].end) by {}
        }
        let found = vertical_crossings(shared, horizontal, v, active, tree, by_net, by_endpoint);
        let ghost before = counts@;
        counts.set(i, found);
        proof {
            assert(bucket@.take(k + 1) =~= bucket@.take(k as int).push(i));
            assert forall|j: int| 0 <= j < vertical@.len() implies #[trigger] counts@[j] == if bucket@.take(k + 1).contains(
                j as usize,
            ) {
                crossings_of(shared@, horizontal@, vertical@[j]) as int
            } else {
                old(counts)@[j] as int
            } by {
                if j != i {
                    assert(counts@[j] == before[j]);
                    assert(bucket@.take(k + 1).contains(j as usize) <==> bucket@.take(k as int).contains(j as usize)) by {
                        if bucket@.take(k + 1).contains(j as usize) {
                            let a = choose|a: int| 0 <= a < k + 1 && #[trigger] bucket@.take(k + 1)[a] == j as usize;
                            assert(bucket@.take(k as int)[a] == j as usize);
                        }
                        if bucket@.take(k as int).contains(j as usize) {
                            let a = choose|a: int| 0 <= a < k && #[trigger] bucket@.take(k as int)[a] == j as usize;
                            assert(bucket@.take(k + 1)[a] == j as usize);
                        }
                    }
                } else {
                    assert(bucket@.take(k + 1)[k as int] == i);
                }
            }
        }
        k = k + 1;
    }
    proof {
        assert(bucket@.take(k as int) =~= bucket@);
    }
}

proof fn lemma_total_of_prefix(counts: Seq<nat>, k: int)
    requires
        0 <= k <= counts.len(),
    ensures
        total_of(counts.take(k)) <= total_of(counts),
    decreases counts.len() - k,
{
    if k < counts.len() {
        lemma_total_of_prefix(counts, k + 1);
        assert(counts.take(k + 1).drop_last() =~= counts.take(k));
    } else {
        assert(counts.take(k) =~= counts);
    }
}

/// The crossings of each vertical piece with the horizontal pieces (see
/// `crosses`), and their total, for pieces whose coordinates are ranks below
/// `rank_count`. `shared` holds the endpoints where edges of different nets
/// meet.
///
/// One sweep runs over the ranks in increasing order; at each rank it first
/// retires the horizontals ending there, then counts the verticals there
/// against the horizontals still spanning it (with a counter over abscissa
/// ranks, less those of the same net or at a shared endpoint of the
/// vertical), then admits the horizontals starting there.
pub fn crossing_sweep(
    shared: &BTreeSet<(NodeId, PortId)>,
    horizontal: &[RankedSegment],
    vertical: &[RankedSegment],
    rank_count: usize,
) -> (result: (usize, Vec<usize>))
    requires
        rank_count <= usize::MAX / 2,
        horizontal@.len() < usize::MAX,
        forall|h: int|
            0 <= h < horizontal@.len() ==> #[trigger] horizontal@[h].fixed < rank_count && horizontal@[h].start < rank_count
                && horizontal@[h].end < rank_count,
        forall|i: int|
            0 <= i < vertical@.len() ==> #[trigger] vertical@[i].fixed < rank_count && vertical@[i].start < rank_count
                && vertical@[i].end < rank_count,
        total_of(crossing_counts(shared@, horizontal@, vertical@)) <= usize::MAX,
    ensures
        result.1@.len() == vertical@.len(),
        forall|i: int| 0 <= i < vertical@.len() ==> #[trigger] result.1@[i] == crossing_counts(shared@, horizontal@, vertical@)[i],
        result.0 == total_of(crossing_counts(shared@, horizontal@, vertical@)),
{
    let mut starts: Vec<usize> = Vec::new();
    let mut ends: Vec<usize> = Vec::new();
    let mut spanning: Vec<bool> = Vec::new();
    let mut inactive: Vec<bool> = Vec::new();
    let mut h: usize = 0;
    while h < horizontal.len()
        invariant
            h <= horizontal@.len(),
            starts@.len() == h,
            ends@.len() == h,
            spanning@.len() == h,
            inactive@.len() == h,
            forall|g: int| 0 <= g < h ==> #[trigger] starts@[g] == horizontal@[g].start,
            forall|g: int| 0 <= g < h ==> #[trigger] ends@[g] == horizontal@[g].end,
            forall|g: int| 0 <= g < h ==> #[trigger] spanning@[g] == spans(horizontal@[g]),
            forall|g: int| 0 <= g < h ==> !#[trigger] inactive@[g],
        decreases horizontal@.len() - h,
    {
        let segment = horizontal[h];
        starts.push(segment.start);
        ends.push(segment.end);
        spanning.push(segment.start < segment.end);
        inactive.push(false);
        h = h + 1;
    }
    let mut abscissas: Vec<usize> = Vec::new();
    let mut every: Vec<bool> = Vec::new();
    let mut counts: Vec<usize> = Vec::new();
    let mut i: usize = 0;
    while i < vertical.len()
        invariant
            i <= vertical@.len(),
            abscissas@.len() == i,
            every@.len() == i,
            counts@.len() == i,
            forall|j: int| 0 <= j < i ==> #[trigger] abscissas@[j] == vertical@[j].fixed,
            forall|j: int| 0 <= j < i ==> #[trigger] every@[j],
            forall|j: int| 0 <= j < i ==> #[trigger] counts@[j] == 0,
        decreases vertical@.len() - i,
    {
        abscissas.push(vertical[i].fixed);
        every.push(true);
        counts.push(0);
        i = i + 1;
    }
    proof {
        assert forall|g: int| 0 <= g < starts@.len() implies #[trigger] starts@[g] < rank_count && ends@[g] < rank_count by {
            assert(horizontal@[g].fixed < rank_count);
        }
        assert forall|g: int| 0 <= g < ends@.len() implies #[trigger] ends@[g] < rank_count by {
            assert(horizontal@[g].fixed < rank_count);
        }
        assert forall|j: int| 0 <= j < abscissas@.len() implies #[trigger] abscissas@[j] < rank_count by {
            assert(vertical@[j].fixed < rank_count);
        }
    }
    let adds = rank_buckets(&starts, &spanning, rank_count);
    let removes = rank_buckets(&ends, &spanning, rank_count);
    let queries = rank_buckets(&abscissas, &every, rank_count);
    let by_net = net_index(horizontal);
    let by_endpoint = endpoint_index(horizontal, shared);
    let mut tree = CrossingFenwick::new(rank_count);
    let mut active = inactive;
    proof {
        assert forall|lo: int, hi: int| 0 <= lo <= hi <= tree@.len() implies #[trigger] count_sum(tree@, lo, hi)
            == active_count(active@, horizontal@, lo, hi) by {
            lemma_count_sum_zeros(tree@, lo, hi);
            lemma_range_count_none(horizontal@.len() as int, |g: int| active@[g] && lo <= horizontal@[g].fixed < hi);
        }
    }
    let ghost expected = crossing_counts(shared@, horizontal@, vertical@);
    let mut x: usize = 0;
    while x < rank_count
        invariant
            x <= rank_count,
            rank_count <= usize::MAX / 2,
            horizontal@.len() < usize::MAX,
            forall|g: int|
                0 <= g < horizontal@.len() ==> #[trigger] horizontal@[g].fixed < rank_count && horizontal@[g].start
                    < rank_count && horizontal@[g].end < rank_count,
            forall|j: int|
                0 <= j < vertical@.len() ==> #[trigger] vertical@[j].fixed < rank_count && vertical@[j].start < rank_count
                    && vertical@[j].end < rank_count,
            starts@.len() == horizontal@.len(),
            ends@.len() == horizontal@.len(),
            spanning@.len() == horizontal@.len(),
            abscissas@.len() == vertical@.len(),
            every@.len() == vertical@.len(),
            forall|g: int| 0 <= g < horizontal@.len() ==> #[trigger] starts@[g] == horizontal@[g].start,
            forall|g: int| 0 <= g < horizontal@.len() ==> #[trigger] ends@[g] == horizontal@[g].end,
            forall|g: int| 0 <= g < horizontal@.len() ==> #[trigger] spanning@[g] == spans(horizontal@[g]),
            forall|j: int| 0 <= j < vertical@.len() ==> #[trigger] abscissas@[j] == vertical@[j].fixed,
            forall|j: int| 0 <= j < vertical@.len() ==> #[trigger] every@[j],
            adds@.len() == rank_count,
            removes@.len() == rank_count,
            queries@.len() == rank_count,
            buckets_hold(adds@, starts@, spanning@, horizontal@.len() as int),
            buckets_hold(removes@, ends@, spanning@, horizontal@.len() as int),
            buckets_hold(queries@, abscissas@, every@, vertical@.len() as int),
            nets_indexed(by_net@, horizontal@, horizontal@.len() as int),
            endpoints_indexed(by_endpoint@, horizontal@, shared@, horizontal@.len() as int),
            tree.wf(),
            tree@.len() == rank_count,
            active@.len() == horizontal@.len(),
            tree_counts_active(tree@, active@, horizontal@),
            forall|g: int|
                0 <= g < horizontal@.len() ==> #[trigger] active@[g] == (spans(horizontal@[g]) && horizontal@[g].start < x
                    && x <= horizontal@[g].end),
            expected == crossing_counts(shared@, horizontal@, vertical@),
            counts@.len() == vertical@.len(),
            forall|j: int|
                0 <= j < vertical@.len() ==> #[trigger] counts@[j] == if vertical@[j].fixed < x {
                    expected[j] as int
                } else {
                    0
                },
        decreases rank_count - x,
    {
        let ghost n = horizontal@.len() as int;
        proof {
            assert(increasing(removes@[x as int]@));
            assert forall|g: int| 0 <= g < n implies (#[trigger] removes@[x as int]@.contains(g as usize) <==> spans(
                horizontal@[g],
            ) && horizontal@[g].end == x) by {
                assert(spanning@[g] == spans(horizontal@[g]));
                assert(ends@[g] == horizontal@[g].end);
            }
        }
        remove_ending(horizontal, &removes[x], x, &mut tree, &mut active);
        proof {
            assert(increasing(queries@[x as int]@));
            assert forall|j: int| 0 <= j < vertical@.len() implies (#[trigger] queries@[x as int]@.contains(j as usize)
                <==> vertical@[j].fixed == x) by {
                assert(every@[j]);
                assert(abscissas@[j] == vertical@[j].fixed);
            }
            assert forall|j: int| 0 <= j < vertical@.len() implies #[trigger] vertical@[j].end <= tree@.len() by {
                assert(vertical@[j].fixed < rank_count);
            }
        }
        let ghost before_counts = counts@;
        count_at(
            shared,
            horizontal,
            vertical,
            &queries[x],
            x,
            &tree,
            &active,
            &by_net,
            &by_endpoint,
            &mut counts,
        );
        proof {
            assert(increasing(adds@[x as int]@));
            assert forall|g: int| 0 <= g < n implies (#[trigger] adds@[x as int]@.contains(g as usize) <==> spans(
                horizontal@[g],
            ) && horizontal@[g].start == x) by {
                assert(spanning@[g] == spans(horizontal@[g]));
                assert(starts@[g] == horizontal@[g].start);
            }
            assert forall|j: int| 0 <= j < vertical@.len() implies #[trigger] counts@[j] == if vertical@[j].fixed < x
                + 1 {
                expected[j] as int
            } else {
                0
            } by {
                assert(before_counts[j] == if vertical@[j].fixed < x {
                    expected[j] as int
                } else {
                    0
                });
            }
        }
        add_starting(horizontal, &adds[x], x, &mut tree, &mut active);
        x = x + 1;
    }
    let mut total: usize = 0;
    let mut j: usize = 0;
    while j < counts.len()
        invariant
            j <= counts@.len(),
            counts@.len() == vertical@.len(),
            expected == crossing_counts(shared@, horizontal@, vertical@),
            total_of(expected) <= usize::MAX,
            forall|i: int| 0 <= i < vertical@.len() ==> #[trigger] counts@[i] == expected[i],
            total == total_of(expected.take(j as int)),
        decreases counts@.len() - j,
    {
        proof {
            assert(expected.take(j + 1).drop_last() =~= expected.take(j as int));
            lemma_total_of_prefix(expected, j + 1);
        }
        total = total + counts[j];
        j = j + 1;
    }
    proof {
        assert(expected.take(j as int) =~= expected);
    }
    (total, counts)
}

proof fn lemma_count_sum_zeros(counts: Seq<int>, lo: int, hi: int)
    requires
        0 <= lo,
        hi <= counts.len(),
        forall|i: int| 0 <= i < counts.len() ==> counts[i] == 0,
    ensures
        count_sum(counts, lo, hi) == 0,
    decreases hi - lo,
{
    if lo < hi {
        lemma_count_sum_zeros(counts, lo, hi - 1);
    }
}

/// Number of pairs `(i, j)` with `i < m`, `j < n` for which `f(i, j)` holds.
pub open spec fn pair_count(m: int, n: int, f: spec_fn(int, int) -> bool) -> nat
    decreases m,
{
    if m <= 0 {
        0
    } else {
        pair_count(m - 1, n, f) + range_count(n, |j: int| f(m - 1, j))
    }
}

proof fn lemma_pair_count_last_column(m: int, n: int, f: spec_fn(int, int) -> bool)
    requires
        n > 0,
    ensures
        pair_count(m, n, f) == pair_count(m, n - 1, f) + range_count(m, |i: int| f(i, n - 1)),
    decreases m,
{
    if m > 0 {
        lemma_pair_count_last_column(m - 1, n, f);
    }
}

proof fn lemma_pair_count_transpose(m: int, n: int, f: spec_fn(int, int) -> bool, g: spec_fn(int, int) -> bool)
    requires
        forall|i: int, j: int| #[trigger] g(j, i) == f(i, j),
    ensures
        pair_count(m, n, f) == pair_count(n, m, g),
    decreases n,
{
    if n <= 0 {
        lemma_pair_count_empty(m, n, f);
    } else {
        lemma_pair_count_last_column(m, n, f);
        lemma_pair_count_transpose(m, n - 1, f, g);
        assert(pair_count(n, m, g) == pair_count(n - 1, m, g) + range_count(m, |i: int| g(n - 1, i)));
        let column = |i: int| f(i, n - 1);
        let row = |i: int| g(n - 1, i);
        assert forall|i: int| 0 <= i < m implies #[trigger] column(i) == row(i) by {}
        lemma_range_count_congruent(m, column, row);
    }
}

proof fn lemma_pair_count_empty(m: int, n: int, f: spec_fn(int, int) -> bool)
    requires
        n <= 0,
    ensures
        pair_count(m, n, f) == 0,
    decreases m,
{
    if m > 0 {
        lemma_pair_count_empty(m - 1, n, f);
    }
}

proof fn lemma_total_is_pair_count(shared: Set<(NodeId, PortId)>, horizontal: Seq<RankedSegment>, vertical: Seq<RankedSegment>, k: int)
    requires
        0 <= k <= vertical.len(),
    ensures
        total_of(crossing_counts(shared, horizontal, vertical).take(k)) == pair_count(
            k,
            horizontal.len() as int,
            |i: int, j: int| crosses(shared, horizontal[j], vertical[i]),
        ),
    decreases k,
{
    if k > 0 {
        lemma_total_is_pair_count(shared, horizontal, vertical, k - 1);
        let counts = crossing_counts(shared, horizontal, vertical);
        assert(counts.take(k).drop_last() =~= counts.take(k - 1));
        let f = |i: int, j: int| crosses(shared, horizontal[j], vertical[i]);
        let column = |j: int| f(k - 1, j);
        let direct = |h: int| crosses(shared, horizontal[h], vertical[k - 1]);
        assert forall|j: int| 0 <= j < horizontal.len() implies #[trigger] column(j) == direct(j) by {}
        lemma_range_count_congruent(horizontal.len() as int, column, direct);
    } else {
        assert(crossing_counts(shared, horizontal, vertical).take(0) =~= Seq::<nat>::empty());
    }
}

/// Crossing is symmetric: swapping the roles of the two pieces changes
/// neither the spans that must cross nor whether they are related.
pub proof fn lemma_crosses_symmetric(shared: Set<(NodeId, PortId)>, a: RankedSegment, b: RankedSegment)
    ensures
        crosses(shared, a, b) == crosses(shared, b, a),
{
}

/// The total number of crossings does not depend on which of the two sets of
/// pieces is swept as horizontal: sweeping `first` against `second` and
/// `second` against `first` count the same pairs.
pub proof fn lemma_crossing_total_is_orientation_free(
    shared: Set<(NodeId, PortId)>,
    first: Seq<RankedSegment>,
    second: Seq<RankedSegment>,
)
    ensures
        total_of(crossing_counts(shared, first, second)) == total_of(crossing_counts(shared, second, first)),
{
    lemma_total_is_pair_count(shared, first, second, second.len() as int);
    lemma_total_is_pair_count(shared, second, first, first.len() as int);
    assert(crossing_counts(shared, first, second).take(second.len() as int) =~= crossing_counts(shared, first, second));
    assert(crossing_counts(shared, second, first).take(first.len() as int) =~= crossing_counts(shared, second, first));
    let f = |i: int, j: int| crosses(shared, first[j], second[i]);
    let g = |i: int, j: int| crosses(shared, second[j], first[i]);
    assert forall|i: int, j: int| #[trigger] g(j, i) == f(i, j) by {
        lemma_crosses_symmetric(shared, first[j], second[i]);
    }
    lemma_pair_count_transpose(second.len() as int, first.len() as int, f, g);
}

} // verus!
