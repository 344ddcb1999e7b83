//! The exact median of a multiset given as occurrence counts of its distinct
//! values, without listing every occurrence.

use vstd::prelude::*;

verus! {

/// Sum of the counts.
pub open spec fn total(counts: Seq<u64>) -> int
    decreases counts.len(),
{
    if counts.len() == 0 {
        0
    } else {
        total(counts.drop_last()) + counts.last()
    }
}

/// The list of all occurrences in ascending order, each written as the index
/// of its distinct value: index `i` stands `counts[i]` times.
pub open spec fn expand(counts: Seq<u64>) -> Seq<int>
    decreases counts.len(),
{
    if counts.len() == 0 {
        Seq::empty()
    } else {
        expand(counts.drop_last()) + Seq::new(counts.last() as nat, |p: int| counts.len() - 1)
    }
}

proof fn lemma_expand_len(counts: Seq<u64>)
    ensures
        expand(counts).len() == total(counts),
    decreases counts.len(),
{
    if counts.len() > 0 {
        lemma_expand_len(counts.drop_last());
    }
}

/// The occurrences of the first `j` values come first, in the same order.
proof fn lemma_expand_prefix(counts: Seq<u64>, j: int)
    requires
        0 <= j <= counts.len(),
    ensures
        forall|p: int|
            0 <= p < expand(counts.take(j)).len() ==> #[trigger] expand(counts)[p] == expand(
                counts.take(j),
            )[p],
        expand(counts.take(j)).len() <= expand(counts).len(),
    decreases counts.len(),
{
    if j == counts.len() {
        assert(counts.take(j) =~= counts);
    } else {
        assert(counts.take(j) =~= counts.drop_last().take(j));
        lemma_expand_prefix(counts.drop_last(), j);
    }
}

/// Positions from `total(counts.take(i))` up to `total(counts.take(i + 1))`
/// hold index `i`.
proof fn lemma_expand_block(counts: Seq<u64>, i: int, p: int)
    requires
        0 <= i < counts.len(),
        total(counts.take(i)) <= p < total(counts.take(i)) + counts[i],
    ensures
        expand(counts)[p] == i,
{
    let t = counts.take(i + 1);
    assert(t.drop_last() =~= counts.take(i));
    lemma_expand_len(counts.take(i));
    lemma_expand_len(t);
    lemma_expand_prefix(counts, i + 1);
}

/// Index of the value that holds position `target` of the ascending list of
/// occurrences, searching from index `start`, where `acc` occurrences come
/// before it.
fn locate(counts: &Vec<u64>, start: usize, acc: u64, target: u64) -> (r: (usize, u64))
    requires
        start < counts@.len(),
        acc == total(counts@.take(start as int)),
        acc <= target < total(counts@),
        total(counts@) <= u64::MAX,
    ensures
        start <= r.0 < counts@.len(),
        r.1 == total(counts@.take(r.0 as int)),
        r.1 <= target < r.1 + counts@[r.0 as int],
{
    let len = counts.len();
    let mut i = start;
    let mut acc = acc;
    while counts[i] <= target - acc
        invariant
            len == counts@.len(),
            start <= i < counts@.len(),
            acc == total(counts@.take(i as int)),
            acc <= target < total(counts@),
            total(counts@) <= u64::MAX,
        decreases counts@.len() - i,
    {
        assert(counts@.take(i + 1).drop_last() =~= counts@.take(i as int));
        acc = acc + counts[i];
        if i + 1 == len {
            assert(counts@.take(i + 1) =~= counts@);
        }
        i = i + 1;
    }
    assert(counts@.take(i + 1).drop_last() =~= counts@.take(i as int));
    (i, acc)
}

/// The total of a prefix is at most the total.
proof fn lemma_total_prefix_le(counts: Seq<u64>, j: int)
    requires
        0 <= j <= counts.len(),
    ensures
        total(counts.take(j)) <= total(counts),
    decreases counts.len(),
{
    if j == counts.len() {
        assert(counts.take(j) =~= counts);
    } else {
        assert(counts.take(j) =~= counts.drop_last().take(j));
        lemma_total_prefix_le(counts.drop_last(), j);
    }
}

/// Sum of the counts; `None` where it does not fit in a `u64`.
pub fn total_count(counts: &Vec<u64>) -> (r: Option<u64>)
    ensures
        match r {
            Some(n) => n == total(counts@),
            None => total(counts@) > u64::MAX,
        },
{
    let mut n: u64 = 0;
    let mut i: usize = 0;
    while i < counts.len()
        invariant
            0 <= i <= counts@.len(),
            n == total(counts@.take(i as int)),
        decreases counts@.len() - i,
    {
        assert(counts@.take(i + 1).drop_last() =~= counts@.take(i as int));
        if n > u64::MAX - counts[i] {
            proof { lemma_total_prefix_le(counts@, i + 1); }
            return None;
        }
        n = n + counts[i];
        i = i + 1;
    }
    assert(counts@.take(i as int) =~= counts@);
    Some(n)
}

/// The two middle positions of the ascending list of all occurrences, each
/// given as the index of its distinct value: `counts[i]` is how often the
/// `i`-th smallest distinct value occurs. For an odd number of occurrences
/// both are the single middle one; for an even number they are the two middle
/// ones, whose mean is the median.
pub fn median_positions(counts: &Vec<u64>) -> (r: (usize, usize))
    requires
        1 <= total(counts@) <= u64::MAX,
    ensures
        r.0 as int == expand(counts@)[(total(counts@) - 1) / 2],
        r.1 as int == expand(counts@)[total(counts@) / 2],
        r.0 < counts@.len(),
        r.1 < counts@.len(),
{
    let n = match total_count(counts) {
        Some(n) => n,
        None => 0,
    };
    assert(counts@.len() > 0) by {
        if counts@.len() == 0 {
            assert(total(counts@) == 0);
        }
    }
    let low = (n - 1) / 2;
    let high = n / 2;
    assert(counts@.take(0) =~= Seq::<u64>::empty());
    let (lo, lo_acc) = locate(counts, 0, 0, low);
    let (hi, _) = locate(counts, lo, lo_acc, high);
    proof {
        lemma_expand_block(counts@, lo as int, low as int);
    }
    proof {
        let hi_acc = total(counts@.take(hi as int));
        lemma_expand_block(counts@, hi as int, high as int);
    }
    (lo, hi)
}

proof fn lemma_expand_sorted(counts: Seq<u64>)
    ensures
        forall|p: int| 0 <= p < expand(counts).len() ==> 0 <= #[trigger] expand(counts)[p] < counts.len(),
        forall|p: int, q: int|
            0 <= p <= q < expand(counts).len() ==> #[trigger] expand(counts)[p] <= #[trigger] expand(
                counts,
            )[q],
    decreases counts.len(),
{
    if counts.len() > 0 {
        let c = counts.drop_last();
        lemma_expand_sorted(c);
        let e = expand(c);
        let b = Seq::new(counts.last() as nat, |p: int| counts.len() - 1);
        assert(expand(counts) == e + b);
        assert forall|p: int| 0 <= p < expand(counts).len() implies 0 <= #[trigger] expand(counts)[p] < counts.len() by {
            if p < e.len() {
                assert(expand(counts)[p] == e[p]);
            }
        }
        assert forall|p: int, q: int|
            0 <= p <= q < expand(counts).len() implies #[trigger] expand(counts)[p] <= #[trigger] expand(
                counts,
            )[q] by {
            if q < e.len() {
                assert(expand(counts)[p] == e[p]);
                assert(expand(counts)[q] == e[q]);
            } else if p < e.len() {
                assert(expand(counts)[p] == e[p]);
            }
        }
    }
}

/// The expansion is the ascending list of every occurrence: its length is the
/// total count, it is sorted, and the `i`-th distinct value fills exactly
/// `counts[i]` consecutive positions, after every occurrence of a smaller
/// value. So the two indices that `median_positions` returns are the middle
/// entries of the fully sorted list of values.
pub proof fn lemma_expansion_is_sorted_list(counts: Seq<u64>)
    ensures
        expand(counts).len() == total(counts),
        forall|p: int, q: int|
            0 <= p <= q < expand(counts).len() ==> #[trigger] expand(counts)[p] <= #[trigger] expand(
                counts,
            )[q],
        forall|i: int, p: int|
            0 <= i < counts.len() && total(counts.take(i)) <= p < total(counts.take(i))
                + counts[i] ==> #[trigger] expand(counts)[p] == i && #[trigger] counts[i] > 0,
{
    lemma_expand_len(counts);
    lemma_expand_sorted(counts);
    assert forall|i: int, p: int|
        0 <= i < counts.len() && total(counts.take(i)) <= p < total(counts.take(i))
            + counts[i] implies #[trigger] expand(counts)[p] == i && #[trigger] counts[i] > 0 by {
        lemma_expand_block(counts, i, p);
    }
}

} // verus!
