//! Ordered snapshots of the maps and sets keyed by identifiers.
use vstd::prelude::*;
use std::collections::BTreeMap;
use std::collections::BTreeSet;
use vstd::std_specs::iter::IteratorSpec;
use vstd::std_specs::cmp::OrdSpec;

verus! {

broadcast use vstd::std_specs::btree::group_btree_axioms;

/// The keys of `entries` strictly increase.
pub open spec fn keys_increasing<V>(entries: Seq<(u32, V)>) -> bool {
    forall|i: int, j: int| 0 <= i < j < entries.len() ==> entries[i].0 < entries[j].0
}

/// `entries` lists exactly the entries of `m`, in increasing key order.
pub open spec fn lists_map<V>(entries: Seq<(u32, V)>, m: Map<u32, V>) -> bool {
    &&& keys_increasing(entries)
    &&& entries.len() == m.dom().len()
    &&& forall|i: int|
        0 <= i < entries.len() ==> #[trigger] m.contains_key(entries[i].0) && m[entries[i].0]
            == entries[i].1
    &&& forall|k: u32| #[trigger] m.contains_key(k) ==> exists|i: int| 0 <= i < entries.len() && entries[i].0 == k
}

/// `keys` lists exactly the members of `s`, in increasing order.
pub open spec fn lists_set(keys: Seq<u32>, s: Set<u32>) -> bool {
    &&& forall|i: int, j: int| 0 <= i < j < keys.len() ==> keys[i] < keys[j]
    &&& keys.len() == s.len()
    &&& forall|i: int| 0 <= i < keys.len() ==> #[trigger] s.contains(keys[i])
    &&& forall|k: u32| #[trigger] s.contains(k) ==> exists|i: int| 0 <= i < keys.len() && keys[i] == k
}

/// Net and edge identifiers obey the ordering laws that the map and set
/// specifications rest on.
pub proof fn lemma_ids_ordered()
    ensures
        vstd::laws_cmp::obeys_cmp::<u32>(),
{
    broadcast use vstd::laws_cmp::group_laws_cmp;
}

/// The entries of a map in increasing key order.
pub fn map_entries<V: Copy>(m: &BTreeMap<u32, V>) -> (entries: Vec<(u32, V)>)
    ensures
        lists_map(entries@, m@),
{
    let mut entries: Vec<(u32, V)> = Vec::new();
    let count = m.len();
    let iter = m.iter();
    let ghost rem = iter.remaining();
    proof {
        broadcast use vstd::laws_cmp::group_laws_cmp;
        let keys = rem.map_values(|kv: (&u32, &V)| *kv.0);
        vstd::std_specs::btree::axiom_increasing_seq_meaning(keys);
        assert forall|i: int, j: int| 0 <= i < j < rem.len() implies *rem[i].0 < *rem[j].0 by {
            assert(keys[i] == *rem[i].0);
            assert(keys[j] == *rem[j].0);
            assert(keys[i].cmp_spec(&keys[j]) is Less);
        }
    }
    for entry in it: iter
        invariant
            count == m@.len(),
            it.seq() == rem,
            rem.len() == m@.dom().len(),
            forall|i: int, j: int| 0 <= i < j < rem.len() ==> *rem[i].0 < *rem[j].0,
            forall|i: int|
                0 <= i < rem.len() ==> #[trigger] m@.contains_key(*rem[i].0) && m@[*rem[i].0]
                    == *rem[i].1,
            forall|k: u32| #[trigger] m@.contains_key(k) ==> exists|i: int| 0 <= i < rem.len() && *rem[i].0 == k,
            entries@.len() == it.index(),
            forall|i: int| 0 <= i < it.index() ==> #[trigger] entries@[i] == (*rem[i].0, *rem[i].1),
            entries@.len() == m@.len() ==> lists_map(entries@, m@),
    {
        let (key, value) = entry;
        entries.push((*key, *value));
        proof {
            if entries@.len() == m@.len() {
                assert forall|k: u32| #[trigger] m@.contains_key(k) implies exists|i: int| 0 <= i < entries@.len() && entries@[i].0 == k by {
                    let i = choose|i: int| 0 <= i < rem.len() && *rem[i].0 == k;
                    assert(entries@[i].0 == k);
                }
            }
        }
    }
    entries
}

/// The members of a set in increasing order.
pub fn set_keys(s: &BTreeSet<u32>) -> (keys: Vec<u32>)
    ensures
        lists_set(keys@, s@),
{
    let mut keys: Vec<u32> = Vec::new();
    let count = s.len();
    let iter = s.iter();
    proof {
        broadcast use vstd::laws_cmp::group_laws_cmp;
        let keys = iter.remaining();
        assert(iter == vstd::std_specs::btree::spec_btree_keys_iter(s));
        vstd::std_specs::btree::axiom_spec_btree_keys_iter(s);
        assert(vstd::std_specs::btree::increasing_seq(keys));
        assert(vstd::laws_cmp::obeys_cmp::<&u32>());
        vstd::std_specs::btree::axiom_increasing_seq_meaning(keys);
        assert forall|i: int, j: int| 0 <= i < j < keys.len() implies *keys[i] < *keys[j] by {
            assert(OrdSpec::cmp_spec(&keys[i], &keys[j]) is Less);
        }
    }
    for key in it: iter
        invariant
            count == s@.len(),
            it.seq().len() == s@.len(),
            it.seq().unref().to_set() == s@,
            increasing_seq_u32(it.seq().unref()),
            keys@ == it.seq().unref().take(it.index()),
            keys@.len() == s@.len() ==> lists_set(keys@, s@),
    {
        keys.push(*key);
        proof {
            assert(keys@ =~= it.seq().unref().take(it.index() + 1));
            if keys@.len() == s@.len() {
                assert(keys@ =~= it.seq().unref());
                assert forall|k: u32| #[trigger] s@.contains(k) implies exists|i: int| 0 <= i < keys@.len() && keys@[i] == k by {
                    assert(it.seq().unref().to_set().contains(k));
                }
            }
        }
    }
    keys
}

spec fn increasing_seq_u32(s: Seq<u32>) -> bool {
    forall|i: int, j: int| 0 <= i < j < s.len() ==> s[i] < s[j]
}

/// Lexicographic order on (key, identifier) pairs.
pub open spec fn pair_before(a: (usize, u32), b: (usize, u32)) -> bool {
    a.0 < b.0 || (a.0 == b.0 && a.1 < b.1)
}

/// Sorts distinct (key, identifier) pairs into increasing lexicographic order.
pub fn sort_pairs(pairs: &Vec<(usize, u32)>) -> (sorted: Vec<(usize, u32)>)
    requires
        pairs@.no_duplicates(),
    ensures
        sorted@.len() == pairs@.len(),
        forall|x: (usize, u32)| sorted@.contains(x) <==> pairs@.contains(x),
        forall|i: int, j: int| 0 <= i < j < sorted@.len() ==> pair_before(#[trigger] sorted@[i], #[trigger] sorted@[j]),
{
    let mut sorted: Vec<(usize, u32)> = Vec::new();
    let mut index: usize = 0;
    while index < pairs.len()
        invariant
            index <= pairs@.len(),
            pairs@.no_duplicates(),
            sorted@.len() == index,
            forall|x: (usize, u32)| sorted@.contains(x) <==> pairs@.take(index as int).contains(x),
            forall|i: int, j: int| 0 <= i < j < sorted@.len() ==> pair_before(#[trigger] sorted@[i], #[trigger] sorted@[j]),
        decreases pairs@.len() - index,
    {
        let item = pairs[index];
        assert(!sorted@.contains(item)) by {
            if sorted@.contains(item) {
                let t = choose|t: int| 0 <= t < index && pairs@.take(index as int)[t] == item;
                assert(pairs@[t] == pairs@[index as int]);
            }
        }
        let mut position: usize = 0;
        while position < sorted.len() && (sorted[position].0 < item.0 || (sorted[position].0
            == item.0 && sorted[position].1 < item.1))
            invariant
                position <= sorted@.len(),
                forall|k: int| 0 <= k < position ==> pair_before(#[trigger] sorted@[k], item),
            decreases sorted@.len() - position,
        {
            position = position + 1;
        }
        let ghost before = sorted@;
        assert forall|k: int| position <= k < before.len() implies pair_before(item, #[trigger] before[k]) by {
            assert(before[k] != item) by {
                assert(before.contains(before[k]));
            }
            if k > position {
                assert(pair_before(before[position as int], before[k]));
            }
        }
        sorted.insert(position, item);
        proof {
            assert(pairs@.take(index + 1) =~= pairs@.take(index as int).push(item));
            assert forall|x: (usize, u32)| sorted@.contains(x) <==> pairs@.take(index + 1).contains(x) by {
                if sorted@.contains(x) {
                    let k = choose|k: int| 0 <= k < sorted@.len() && sorted@[k] == x;
                    if k < position {
                        assert(before[k] == x);
                        assert(before.contains(x));
                    } else if k > position {
                        assert(before[k - 1] == x);
                        assert(before.contains(x));
                    } else {
                        assert(pairs@.take(index + 1)[index as int] == x);
                    }
                    if x != item {
                        assert(pairs@.take(index as int).contains(x));
                        let t = choose|t: int| 0 <= t < index && #[trigger] pairs@.take(index as int)[t] == x;
                        assert(pairs@.take(index + 1)[t] == x);
                    }
                }
                if pairs@.take(index + 1).contains(x) {
                    if x == item {
                        assert(sorted@[position as int] == x);
                    } else {
                        let t = choose|t: int| 0 <= t < index + 1 && #[trigger] pairs@.take(index + 1)[t] == x;
                        assert(pairs@.take(index as int)[t] == x);
                        assert(before.contains(x));
                        let k = choose|k: int| 0 <= k < before.len() && before[k] == x;
                        if k < position {
                            assert(sorted@[k] == x);
                        } else {
                            assert(sorted@[k + 1] == x);
                        }
                    }
                }
            }
            assert forall|i: int, j: int| 0 <= i < j < sorted@.len() implies pair_before(#[trigger] sorted@[i], #[trigger] sorted@[j]) by {
                if j < position {
                    assert(sorted@[i] == before[i] && sorted@[j] == before[j]);
                } else if i > position {
                    assert(sorted@[i] == before[i - 1] && sorted@[j] == before[j - 1]);
                } else if i < position && j > position {
                    assert(sorted@[i] == before[i] && sorted@[j] == before[j - 1]);
                    assert(pair_before(before[i], item));
                } else if i == position {
                    assert(sorted@[j] == before[j - 1]);
                } else {
                    assert(sorted@[i] == before[i]);
                }
            }
        }
        index = index + 1;
    }
    assert(pairs@.take(index as int) =~= pairs@);
    sorted
}

/// Lexicographic order on (score, key, identifier) triples.
pub open spec fn triple_before(a: (i64, usize, u32), b: (i64, usize, u32)) -> bool {
    a.0 < b.0 || (a.0 == b.0 && (a.1 < b.1 || (a.1 == b.1 && a.2 < b.2)))
}

/// Sorts distinct (score, key, identifier) triples into increasing lexicographic order.
pub fn sort_triples(items: &Vec<(i64, usize, u32)>) -> (sorted: Vec<(i64, usize, u32)>)
    requires
        items@.no_duplicates(),
    ensures
        sorted@.len() == items@.len(),
        forall|x: (i64, usize, u32)| sorted@.contains(x) <==> items@.contains(x),
        forall|i: int, j: int| 0 <= i < j < sorted@.len() ==> triple_before(#[trigger] sorted@[i], #[trigger] sorted@[j]),
{
    let mut sorted: Vec<(i64, usize, u32)> = Vec::new();
    let mut index: usize = 0;
    while index < items.len()
        invariant
            index <= items@.len(),
            items@.no_duplicates(),
            sorted@.len() == index,
            forall|x: (i64, usize, u32)| sorted@.contains(x) <==> items@.take(index as int).contains(x),
            forall|i: int, j: int| 0 <= i < j < sorted@.len() ==> triple_before(#[trigger] sorted@[i], #[trigger] sorted@[j]),
        decreases items@.len() - index,
    {
        let item = items[index];
        assert(!sorted@.contains(item)) by {
            if sorted@.contains(item) {
                let t = choose|t: int| 0 <= t < index && items@.take(index as int)[t] == item;
                assert(items@[t] == items@[index as int]);
            }
        }
        let mut position: usize = 0;
        while position < sorted.len() && (sorted[position].0 < item.0 || (sorted[position].0
            == item.0 && (sorted[position].1 < item.1 || (sorted[position].1 == item.1
            && sorted[position].2 < item.2))))
            invariant
                position <= sorted@.len(),
                forall|k: int| 0 <= k < position ==> triple_before(#[trigger] sorted@[k], item),
            decreases sorted@.len() - position,
        {
            position = position + 1;
        }
        let ghost before = sorted@;
        assert forall|k: int| position <= k < before.len() implies triple_before(item, #[trigger] before[k]) by {
            assert(before[k] != item) by {
                assert(before.contains(before[k]));
            }
            if k > position {
                assert(triple_before(before[position as int], before[k]));
            }
        }
        sorted.insert(position, item);
        proof {
            assert(items@.take(index + 1) =~= items@.take(index as int).push(item));
            assert forall|x: (i64, usize, u32)| sorted@.contains(x) <==> items@.take(index + 1).contains(x) by {
                if sorted@.contains(x) {
                    let k = choose|k: int| 0 <= k < sorted@.len() && sorted@[k] == x;
                    if k < position {
                        assert(before[k] == x);
                        assert(before.contains(x));
                    } else if k > position {
                        assert(before[k - 1] == x);
                        assert(before.contains(x));
                    } else {
                        assert(items@.take(index + 1)[index as int] == x);
                    }
                    if x != item {
                        assert(items@.take(index as int).contains(x));
                        let t = choose|t: int| 0 <= t < index && #[trigger] items@.take(index as int)[t] == x;
                        assert(items@.take(index + 1)[t] == x);
                    }
                }
                if items@.take(index + 1).contains(x) {
                    if x == item {
                        assert(sorted@[position as int] == x);
                    } else {
                        let t = choose|t: int| 0 <= t < index + 1 && #[trigger] items@.take(index + 1)[t] == x;
                        assert(items@.take(index as int)[t] == x);
                        assert(before.contains(x));
                        let k = choose|k: int| 0 <= k < before.len() && before[k] == x;
                        if k < position {
                            assert(sorted@[k] == x);
                        } else {
                            assert(sorted@[k + 1] == x);
                        }
                    }
                }
            }
            assert forall|i: int, j: int| 0 <= i < j < sorted@.len() implies triple_before(#[trigger] sorted@[i], #[trigger] sorted@[j]) by {
                if j < position {
                    assert(sorted@[i] == before[i] && sorted@[j] == before[j]);
                } else if i > position {
                    assert(sorted@[i] == before[i - 1] && sorted@[j] == before[j - 1]);
                } else if i < position && j > position {
                    assert(sorted@[i] == before[i] && sorted@[j] == before[j - 1]);
                    assert(triple_before(before[i], item));
                } else if i == position {
                    assert(sorted@[j] == before[j - 1]);
                } else {
                    assert(sorted@[i] == before[i]);
                }
            }
        }
        index = index + 1;
    }
    assert(items@.take(index as int) =~= items@);
    sorted
}

/// Lexicographic order on (lane, net, track) keys.
pub open spec fn track_before(a: (usize, u32, u64), b: (usize, u32, u64)) -> bool {
    a.0 < b.0 || (a.0 == b.0 && (a.1 < b.1 || (a.1 == b.1 && a.2 < b.2)))
}

/// Sorts distinct (lane, net, track) keys into increasing lexicographic order.
pub fn sort_track_keys(items: &Vec<(usize, u32, u64)>) -> (sorted: Vec<(usize, u32, u64)>)
    requires
        items@.no_duplicates(),
    ensures
        sorted@.len() == items@.len(),
        forall|x: (usize, u32, u64)| sorted@.contains(x) <==> items@.contains(x),
        forall|i: int, j: int| 0 <= i < j < sorted@.len() ==> track_before(#[trigger] sorted@[i], #[trigger] sorted@[j]),
{
    let mut sorted: Vec<(usize, u32, u64)> = Vec::new();
    let mut index: usize = 0;
    while index < items.len()
        invariant
            index <= items@.len(),
            items@.no_duplicates(),
            sorted@.len() == index,
            forall|x: (usize, u32, u64)| sorted@.contains(x) <==> items@.take(index as int).contains(x),
            forall|i: int, j: int| 0 <= i < j < sorted@.len() ==> track_before(#[trigger] sorted@[i], #[trigger] sorted@[j]),
        decreases items@.len() - index,
    {
        let item = items[index];
        assert(!sorted@.contains(item)) by {
            if sorted@.contains(item) {
                let t = choose|t: int| 0 <= t < index && items@.take(index as int)[t] == item;
                assert(items@[t] == items@[index as int]);
            }
        }
        let mut position: usize = 0;
        while position < sorted.len() && (sorted[position].0 < item.0 || (sorted[position].0
            == item.0 && (sorted[position].1 < item.1 || (sorted[position].1 == item.1
            && sorted[position].2 < item.2))))
            invariant
                position <= sorted@.len(),
                forall|k: int| 0 <= k < position ==> track_before(#[trigger] sorted@[k], item),
            decreases sorted@.len() - position,
        {
            position = position + 1;
        }
        let ghost before = sorted@;
        assert forall|k: int| position <= k < before.len() implies track_before(item, #[trigger] before[k]) by {
            assert(before[k] != item) by {
                assert(before.contains(before[k]));
            }
            if k > position {
                assert(track_before(before[position as int], before[k]));
            }
        }
        sorted.insert(position, item);
        proof {
            assert(items@.take(index + 1) =~= items@.take(index as int).push(item));
            assert forall|x: (usize, u32, u64)| sorted@.contains(x) <==> items@.take(index + 1).contains(x) by {
                if sorted@.contains(x) {
                    let k = choose|k: int| 0 <= k < sorted@.len() && sorted@[k] == x;
                    if k < position {
                        assert(before[k] == x);
                        assert(before.contains(x));
                    } else if k > position {
                        assert(before[k - 1] == x);
                        assert(before.contains(x));
                    } else {
                        assert(items@.take(index + 1)[index as int] == x);
                    }
                    if x != item {
                        assert(items@.take(index as int).contains(x));
                        let t = choose|t: int| 0 <= t < index && #[trigger] items@.take(index as int)[t] == x;
                        assert(items@.take(index + 1)[t] == x);
                    }
                }
                if items@.take(index + 1).contains(x) {
                    if x == item {
                        assert(sorted@[position as int] == x);
                    } else {
                        let t = choose|t: int| 0 <= t < index + 1 && #[trigger] items@.take(index + 1)[t] == x;
                        assert(items@.take(index as int)[t] == x);
                        assert(before.contains(x));
                        let k = choose|k: int| 0 <= k < before.len() && before[k] == x;
                        if k < position {
                            assert(sorted@[k] == x);
                        } else {
                            assert(sorted@[k + 1] == x);
                        }
                    }
                }
            }
            assert forall|i: int, j: int| 0 <= i < j < sorted@.len() implies track_before(#[trigger] sorted@[i], #[trigger] sorted@[j]) by {
                if j < position {
                    assert(sorted@[i] == before[i] && sorted@[j] == before[j]);
                } else if i > position {
                    assert(sorted@[i] == before[i - 1] && sorted@[j] == before[j - 1]);
                } else if i < position && j > position {
                    assert(sorted@[i] == before[i] && sorted@[j] == before[j - 1]);
                    assert(track_before(before[i], item));
                } else if i == position {
                    assert(sorted@[j] == before[j - 1]);
                } else {
                    assert(sorted@[i] == before[i]);
                }
            }
        }
        index = index + 1;
    }
    assert(items@.take(index as int) =~= items@);
    sorted
}

/// The members of `s` in increasing order (for a finite set of `u32`).
pub open spec fn sorted_keys(s: Set<u32>) -> Seq<u32> {
    choose|keys: Seq<u32>| lists_set(keys, s)
}

/// The increasing listing of a set is unique.
pub proof fn lemma_lists_set_unique(a: Seq<u32>, b: Seq<u32>, s: Set<u32>)
    requires
        lists_set(a, s),
        lists_set(b, s),
    ensures
        a == b,
    decreases a.len(),
{
    if a.len() == 0 {
        assert(b.len() == 0);
        assert(a =~= b);
    } else {
        assert(s.contains(a[0]) && s.contains(b[0]));
        let j = choose|j: int| 0 <= j < b.len() && b[j] == a[0];
        let i = choose|i: int| 0 <= i < a.len() && a[i] == b[0];
        if i > 0 && j > 0 {
            assert(a[0] < a[i] && b[0] < b[j]);
        }
        assert(a[0] == b[0]);
        let rest = s.remove(a[0]);
        let ta = a.drop_first();
        let tb = b.drop_first();
        assert forall|k: int| 0 <= k < ta.len() implies #[trigger] rest.contains(ta[k]) by {
            assert(ta[k] == a[k + 1] && a[0] < a[k + 1]);
        }
        assert forall|k: int| 0 <= k < tb.len() implies #[trigger] rest.contains(tb[k]) by {
            assert(tb[k] == b[k + 1] && b[0] < b[k + 1]);
        }
        assert forall|key: u32| #[trigger] rest.contains(key) implies exists|k: int| 0 <= k < ta.len() && ta[k] == key by {
            let k = choose|k: int| 0 <= k < a.len() && a[k] == key;
            assert(ta[k - 1] == key);
        }
        assert forall|key: u32| #[trigger] rest.contains(key) implies exists|k: int| 0 <= k < tb.len() && tb[k] == key by {
            let k = choose|k: int| 0 <= k < b.len() && b[k] == key;
            assert(tb[k - 1] == key);
        }
        assert forall|x: int, y: int| 0 <= x < y < ta.len() implies ta[x] < ta[y] by {
            assert(ta[x] == a[x + 1] && ta[y] == a[y + 1]);
        }
        assert forall|x: int, y: int| 0 <= x < y < tb.len() implies tb[x] < tb[y] by {
            assert(tb[x] == b[x + 1] && tb[y] == b[y + 1]);
        }
        assert(s =~= a.to_set()) by {
            assert forall|key: u32| s.contains(key) implies a.to_set().contains(key) by {
                let k = choose|k: int| 0 <= k < a.len() && a[k] == key;
                assert(a.contains(key));
            }
            assert forall|key: u32| a.to_set().contains(key) implies s.contains(key) by {
                let k = choose|k: int| 0 <= k < a.len() && a[k] == key;
            }
        }
        vstd::seq_lib::seq_to_set_is_finite(a);
        assert(rest.len() == s.len() - 1);
        lemma_lists_set_unique(ta, tb, rest);
        assert forall|k: int| 0 <= k < a.len() implies a[k] == b[k] by {
            if k > 0 {
                assert(a[k] == ta[k - 1] && b[k] == tb[k - 1]);
            }
        }
        assert(a =~= b);
    }
}

} // verus!
