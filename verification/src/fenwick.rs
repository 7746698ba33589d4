//! A binary indexed (Fenwick) counter over the positions `0..len`.
//!
//! The crossing sweep keeps the horizontal tracks that are currently active
//! in this counter and asks how many of them lie below a position.
use vstd::prelude::*;

verus! {

/// Lowest set bit of `c` (zero for zero).
pub open spec fn lowbit(c: usize) -> usize {
    c & !((c - 1) as usize)
}

/// Sum of `counts[lo..hi]` (zero when the range is empty).
pub open spec fn count_sum(counts: Seq<int>, lo: int, hi: int) -> int
    decreases hi - lo,
{
    if hi <= lo {
        0
    } else {
        count_sum(counts, lo, hi - 1) + counts[hi - 1]
    }
}

/// Tree node `c` (one-based) holds the counts of positions `c - lowbit(c) .. c`.
pub open spec fn node_covers(c: usize, index: int) -> bool {
    c - lowbit(c) <= index < c
}

/// The total a tree node holds for the given counts.
pub open spec fn node_total(counts: Seq<int>, c: usize) -> int {
    count_sum(counts, c - lowbit(c), c as int)
}

/// Adding one item at `index` to these counts keeps every tree node that
/// holds it in a `usize`.
pub open spec fn addable(counts: Seq<int>, index: int) -> bool {
    forall|c: usize|
        1 <= c <= counts.len() && node_covers(c, index) ==> #[trigger] node_total(counts, c)
            < usize::MAX
}

/// Every tree node that holds position `index` holds at least one item.
pub open spec fn removable(counts: Seq<int>, index: int) -> bool {
    forall|c: usize|
        1 <= c <= counts.len() && node_covers(c, index) ==> #[trigger] node_total(counts, c) >= 1
}

/// Count of items at each position `0..len`, kept as a Fenwick tree.
pub struct CrossingFenwick {
    values: Vec<usize>,
    counts: Ghost<Seq<int>>,
}

impl View for CrossingFenwick {
    type V = Seq<int>;

    closed spec fn view(&self) -> Seq<int> {
        self.counts@
    }
}

proof fn lemma_lowbit_basics(c: usize)
    requires
        c > 0,
    ensures
        0 < lowbit(c) <= c,
        c & ((c - 1) as usize) == c - lowbit(c),
{
    assert(0 < c & !((c - 1) as usize) <= c && c & ((c - 1) as usize) == c - (c & !((c - 1)
        as usize))) by (bit_vector)
        requires
            c > 0,
    ;
}

/// Between a node and the next node of its update path, no node reaches back
/// below the first one.
proof fn lemma_lowbit_gap(c: usize, d: usize)
    requires
        c > 0,
        0 < d < lowbit(c),
        c <= usize::MAX / 2,
    ensures
        ((c + d) as usize) - lowbit((c + d) as usize) >= c,
{
    assert(((c + d) as usize) - (((c + d) as usize) & !((((c + d) as usize) - 1) as usize))
        >= c) by (bit_vector)
        requires
            c > 0,
            0 < d < c & !((c - 1) as usize),
            (c + c) as usize == c + c,
    ;
}

/// The next node of an update path covers at least what the current one covers.
proof fn lemma_lowbit_parent(c: usize)
    requires
        c > 0,
        c <= usize::MAX / 2,
    ensures
        ((c + lowbit(c)) as usize) - lowbit((c + lowbit(c)) as usize) <= c - lowbit(c),
        c + lowbit(c) <= usize::MAX,
{
    assert(((c + (c & !((c - 1) as usize))) as usize) - (((c + (c & !((c - 1) as usize)))
        as usize) & !((((c + (c & !((c - 1) as usize))) as usize) - 1) as usize)) <= c - (c
        & !((c - 1) as usize)) && (c + (c & !((c - 1) as usize))) as usize == c + (c & !((c - 1) as usize))) by (bit_vector)
        requires
            c > 0,
            (c + c) as usize == c + c,
    ;
}


pub proof fn lemma_count_sum_split(counts: Seq<int>, lo: int, mid: int, hi: int)
    requires
        lo <= mid <= hi,
    ensures
        count_sum(counts, lo, hi) == count_sum(counts, lo, mid) + count_sum(counts, mid, hi),
    decreases hi - mid,
{
    if mid < hi {
        lemma_count_sum_split(counts, lo, mid, hi - 1);
    }
}

pub proof fn lemma_count_sum_update(counts: Seq<int>, index: int, delta: int, lo: int, hi: int)
    requires
        0 <= index < counts.len(),
        0 <= lo,
        hi <= counts.len(),
    ensures
        count_sum(counts.update(index, counts[index] + delta), lo, hi) == count_sum(counts, lo, hi)
            + (if lo <= index < hi {
            delta
        } else {
            0
        }),
    decreases hi - lo,
{
    if lo < hi {
        lemma_count_sum_update(counts, index, delta, lo, hi - 1);
    }
}

/// The counts below any prefix boundary add up to a sum of node totals, so
/// they are never negative while every node total is stored in a `usize`.
proof fn lemma_prefix_nonnegative(counts: Seq<int>, values: Seq<usize>, end: usize)
    requires
        values.len() == counts.len() + 1,
        end < values.len(),
        forall|c: usize| 1 <= c < values.len() ==> #[trigger] values[c as int] == node_total(counts, c),
    ensures
        count_sum(counts, 0, end as int) >= 0,
    decreases end,
{
    if end > 0 {
        lemma_lowbit_basics(end);
        let next = (end - lowbit(end)) as usize;
        lemma_prefix_nonnegative(counts, values, next);
        lemma_count_sum_split(counts, 0, next as int, end as int);
        assert(values[end as int] == node_total(counts, end));
    }
}

impl CrossingFenwick {
    /// The tree agrees with its counts, and its update walks cannot overflow.
    pub closed spec fn wf(&self) -> bool {
        &&& self.values@.len() == self.counts@.len() + 1
        &&& self.counts@.len() <= usize::MAX / 2
        &&& forall|c: usize|
            1 <= c < self.values@.len() ==> #[trigger] self.values@[c as int] == node_total(
                self.counts@,
                c,
            )
    }

    /// Adding one item at `index` keeps every node that holds it in a `usize`.
    pub open spec fn can_add(&self, index: int) -> bool {
        addable(self@, index)
    }

    /// Every node that holds position `index` holds at least one item.
    pub open spec fn can_remove(&self, index: int) -> bool {
        removable(self@, index)
    }

    /// An empty counter over positions `0..len`.
    pub fn new(len: usize) -> (tree: Self)
        requires
            len <= usize::MAX / 2,
        ensures
            tree.wf(),
            tree@ == Seq::new(len as nat, |i: int| 0int),
    {
        let values: Vec<usize> = vec![0; len + 1];
        let ghost counts = Seq::new(len as nat, |i: int| 0int);
        proof {
            assert forall|c: usize| 1 <= c < values@.len() implies #[trigger] values@[c as int]
                == node_total(counts, c) by {
                lemma_lowbit_basics(c);
                lemma_count_sum_zero(counts, c - lowbit(c), c as int);
            }
        }
        CrossingFenwick { values, counts: Ghost(counts) }
    }

    /// Counts one more item at `index`.
    pub fn add(&mut self, index: usize)
        requires
            old(self).wf(),
            index < old(self)@.len(),
            old(self).can_add(index as int),
        ensures
            final(self).wf(),
            final(self)@ == old(self)@.update(index as int, old(self)@[index as int] + 1),
    {
        let ghost before = self.counts@;
        let ghost after = before.update(index as int, before[index as int] + 1);
        let mut cursor = index + 1;
        proof {
            lemma_lowbit_basics(cursor);
        }
        while cursor < self.values.len()
            invariant
                self.counts@ == before,
                self.values@.len() == before.len() + 1,
                before.len() <= usize::MAX / 2,
                index < before.len(),
                index < cursor,
                node_covers(cursor, index as int),
                forall|c: usize| 1 <= c <= before.len() && node_covers(c, index as int) ==> #[trigger] node_total(before, c) < usize::MAX,
                forall|c: usize|
                    1 <= c < self.values@.len() ==> #[trigger] self.values@[c as int] == node_total(
                        before,
                        c,
                    ) + (if c < cursor && node_covers(c, index as int) {
                        1int
                    } else {
                        0int
                    }),
            decreases usize::MAX - cursor,
        {
            proof {
                lemma_lowbit_basics(cursor);
                lemma_lowbit_parent(cursor);
            }
            let value = self.values[cursor];
            assert(value == node_total(before, cursor));
            self.values.set(cursor, value + 1);
            let step = cursor & !(cursor - 1);
            let next = cursor + step;
            proof {
                assert forall|c: usize| cursor < c < next implies !node_covers(c, index as int) by {
                    lemma_lowbit_gap(cursor, (c - cursor) as usize);
                }
            }
            cursor = next;
        }
        proof {
            self.counts = Ghost(after);
            assert forall|c: usize| 1 <= c < self.values@.len() implies #[trigger] self.values@[c as int]
                == node_total(after, c) by {
                lemma_lowbit_basics(c);
                lemma_count_sum_update(before, index as int, 1, c - lowbit(c), c as int);
            }
        }
    }

    /// Counts one item fewer at `index`.
    pub fn remove(&mut self, index: usize)
        requires
            old(self).wf(),
            index < old(self)@.len(),
            old(self).can_remove(index as int),
        ensures
            final(self).wf(),
            final(self)@ == old(self)@.update(index as int, old(self)@[index as int] - 1),
    {
        let ghost before = self.counts@;
        let ghost after = before.update(index as int, before[index as int] - 1);
        let mut cursor = index + 1;
        proof {
            lemma_lowbit_basics(cursor);
        }
        while cursor < self.values.len()
            invariant
                self.counts@ == before,
                self.values@.len() == before.len() + 1,
                before.len() <= usize::MAX / 2,
                index < before.len(),
                index < cursor,
                node_covers(cursor, index as int),
                forall|c: usize| 1 <= c <= before.len() && node_covers(c, index as int) ==> #[trigger] node_total(before, c) >= 1,
                forall|c: usize|
                    1 <= c < self.values@.len() ==> #[trigger] self.values@[c as int] == node_total(
                        before,
                        c,
                    ) - (if c < cursor && node_covers(c, index as int) {
                        1int
                    } else {
                        0int
                    }),
            decreases usize::MAX - cursor,
        {
            proof {
                lemma_lowbit_basics(cursor);
                lemma_lowbit_parent(cursor);
            }
            let value = self.values[cursor];
            assert(value == node_total(before, cursor));
            self.values.set(cursor, value - 1);
            let step = cursor & !(cursor - 1);
            let next = cursor + step;
            proof {
                assert forall|c: usize| cursor < c < next implies !node_covers(c, index as int) by {
                    lemma_lowbit_gap(cursor, (c - cursor) as usize);
                }
            }
            cursor = next;
        }
        proof {
            self.counts = Ghost(after);
            assert forall|c: usize| 1 <= c < self.values@.len() implies #[trigger] self.values@[c as int]
                == node_total(after, c) by {
                lemma_lowbit_basics(c);
                lemma_count_sum_update(before, index as int, -1, c - lowbit(c), c as int);
            }
        }
    }

    /// Number of items at positions `0..end`.
    pub fn prefix(&self, end: usize) -> (total: usize)
        requires
            self.wf(),
            end <= self@.len(),
            count_sum(self@, 0, end as int) <= usize::MAX,
        ensures
            total == count_sum(self@, 0, end as int),
    {
        let mut cursor = end;
        let mut total: usize = 0;
        while cursor > 0
            invariant
                self.wf(),
                cursor <= end,
                end <= self@.len(),
                count_sum(self@, 0, end as int) <= usize::MAX,
                total == count_sum(self@, cursor as int, end as int),
            decreases cursor,
        {
            proof {
                lemma_lowbit_basics(cursor);
                let next = (cursor - lowbit(cursor)) as usize;
                lemma_count_sum_split(self@, next as int, cursor as int, end as int);
                lemma_count_sum_split(self@, 0, next as int, end as int);
                lemma_prefix_nonnegative(self@, self.values@, next);
                assert(self.values@[cursor as int] == node_total(self@, cursor));
            }
            total = total + self.values[cursor];
            cursor = cursor & (cursor - 1);
        }
        total
    }
}

proof fn lemma_count_sum_zero(counts: Seq<int>, lo: int, hi: int)
    requires
        0 <= lo,
        hi <= counts.len(),
        forall|i: int| 0 <= i < counts.len() ==> counts[i] == 0,
    ensures
        count_sum(counts, lo, hi) == 0,
    decreases hi - lo,
{
    if lo < hi {
        lemma_count_sum_zero(counts, lo, hi - 1);
    }
}

/// Removing an item right after adding it at the same position is always
/// allowed, and gives back the counts from before the addition.
pub proof fn lemma_remove_undoes_add(counts: Seq<int>, index: int)
    requires
        0 <= index < counts.len(),
        forall|i: int| 0 <= i < counts.len() ==> counts[i] >= 0,
    ensures
        removable(counts.update(index, counts[index] + 1), index),
        counts.update(index, counts[index] + 1).update(index, (counts[index] + 1) - 1) == counts,
{
    let added = counts.update(index, counts[index] + 1);
    assert forall|c: usize|
        1 <= c <= added.len() && node_covers(c, index) implies #[trigger] node_total(added, c)
        >= 1 by {
        lemma_lowbit_basics(c);
        lemma_count_sum_update(counts, index, 1, c - lowbit(c), c as int);
        lemma_count_sum_nonnegative(counts, c - lowbit(c), c as int);
    }
    assert(added.update(index, (counts[index] + 1) - 1) =~= counts);
}

/// With no negative counts, one item can be taken away wherever there is one.
pub proof fn lemma_removable_when_counted(counts: Seq<int>, index: int)
    requires
        0 <= index < counts.len(),
        forall|i: int| 0 <= i < counts.len() ==> counts[i] >= 0,
        counts[index] >= 1,
    ensures
        removable(counts, index),
{
    assert forall|c: usize| 1 <= c <= counts.len() && node_covers(c, index) implies #[trigger] node_total(counts, c)
        >= 1 by {
        lemma_lowbit_basics(c);
        let lo = c - lowbit(c);
        lemma_count_sum_split(counts, lo, index, c as int);
        lemma_count_sum_split(counts, index, index + 1, c as int);
        lemma_count_sum_nonnegative(counts, lo, index);
        lemma_count_sum_nonnegative(counts, index + 1, c as int);
        assert(count_sum(counts, index, index + 1) == counts[index]) by {
            assert(count_sum(counts, index, index) == 0);
        }
    }
}

/// While no position holds a negative count and all items together fit
/// below `usize::MAX`, one more item can be added anywhere.
pub proof fn lemma_addable_when_total_fits(counts: Seq<int>, index: int)
    requires
        0 <= index < counts.len(),
        forall|i: int| 0 <= i < counts.len() ==> counts[i] >= 0,
        count_sum(counts, 0, counts.len() as int) < usize::MAX,
    ensures
        addable(counts, index),
{
    assert forall|c: usize| 1 <= c <= counts.len() && node_covers(c, index) implies #[trigger] node_total(
        counts,
        c,
    ) < usize::MAX by {
        lemma_lowbit_basics(c);
        let lo = c - lowbit(c);
        lemma_count_sum_split(counts, 0, lo, counts.len() as int);
        lemma_count_sum_split(counts, lo, c as int, counts.len() as int);
        lemma_count_sum_nonnegative(counts, 0, lo);
        lemma_count_sum_nonnegative(counts, c as int, counts.len() as int);
    }
}

/// With no negative counts, the items below `end` never outnumber those below
/// a later boundary.
pub proof fn lemma_prefix_monotone(counts: Seq<int>, end: int, later: int)
    requires
        0 <= end <= later <= counts.len(),
        forall|i: int| 0 <= i < counts.len() ==> counts[i] >= 0,
    ensures
        count_sum(counts, 0, end) <= count_sum(counts, 0, later),
{
    lemma_count_sum_split(counts, 0, end, later);
    lemma_count_sum_nonnegative(counts, end, later);
}

proof fn lemma_count_sum_nonnegative(counts: Seq<int>, lo: int, hi: int)
    requires
        0 <= lo,
        hi <= counts.len(),
        forall|i: int| 0 <= i < counts.len() ==> counts[i] >= 0,
    ensures
        count_sum(counts, lo, hi) >= 0,
    decreases hi - lo,
{
    if lo < hi {
        lemma_count_sum_nonnegative(counts, lo, hi - 1);
    }
}

} // verus!

