//! Finite sums of integers, and the blocks into which a total is cut when its
//! summands are laid out one after another in some order.

use vstd::prelude::*;

verus! {

/// The sum of all entries of `s`.
pub open spec fn seq_sum(s: Seq<int>) -> int
    decreases s.len(),
{
    if s.len() == 0 {
        0
    } else {
        seq_sum(s.drop_last()) + s.last()
    }
}

/// `vals` with every entry whose index `keep` rejects replaced by 0.
pub open spec fn masked(vals: Seq<int>, keep: spec_fn(int) -> bool) -> Seq<int> {
    Seq::new(vals.len(), |j: int| if keep(j) { vals[j] } else { 0 })
}

/// The entries of `vals` at the indices listed in `list`, in the order of the
/// list.
pub open spec fn picked(vals: Seq<int>, list: Seq<int>) -> Seq<int> {
    Seq::new(list.len(), |q: int| vals[list[q]])
}

/// No entry of `list` occurs twice, and each is an index below `n`.
pub open spec fn distinct_indices(list: Seq<int>, n: int) -> bool {
    &&& forall|q: int| 0 <= q < list.len() ==> 0 <= #[trigger] list[q] < n
    &&& forall|p: int, q: int| 0 <= p < q < list.len() ==> list[p] != list[q]
}

/// No entry of `s` is negative.
pub open spec fn all_nonneg(s: Seq<int>) -> bool {
    forall|j: int| 0 <= j < s.len() ==> #[trigger] s[j] >= 0
}

/// One more summand adds itself to the sum.
pub proof fn lemma_sum_push(s: Seq<int>, v: int)
    ensures
        seq_sum(s.push(v)) == seq_sum(s) + v,
{
    assert(s.push(v).drop_last() =~= s);
}

/// A sum of numbers that are not negative is not negative.
pub proof fn lemma_sum_nonneg(s: Seq<int>)
    requires
        all_nonneg(s),
    ensures
        seq_sum(s) >= 0,
    decreases s.len(),
{
    if s.len() > 0 {
        lemma_sum_nonneg(s.drop_last());
    }
}

/// A sum of zeros is 0.
pub proof fn lemma_sum_zero(s: Seq<int>)
    requires
        forall|j: int| 0 <= j < s.len() ==> #[trigger] s[j] == 0,
    ensures
        seq_sum(s) == 0,
    decreases s.len(),
{
    if s.len() > 0 {
        lemma_sum_zero(s.drop_last());
    }
}

/// A sum grows with its summands.
pub proof fn lemma_sum_le(a: Seq<int>, b: Seq<int>)
    requires
        a.len() == b.len(),
        forall|j: int| 0 <= j < a.len() ==> #[trigger] a[j] <= b[j],
    ensures
        seq_sum(a) <= seq_sum(b),
    decreases a.len(),
{
    if a.len() > 0 {
        lemma_sum_le(a.drop_last(), b.drop_last());
    }
}

/// A sum changes by as much as the one summand that is replaced.
pub proof fn lemma_sum_update(s: Seq<int>, i: int, v: int)
    requires
        0 <= i < s.len(),
    ensures
        seq_sum(s.update(i, v)) == seq_sum(s) - s[i] + v,
    decreases s.len(),
{
    if i == s.len() - 1 {
        assert(s.update(i, v).drop_last() =~= s.drop_last());
    } else {
        lemma_sum_update(s.drop_last(), i, v);
        assert(s.update(i, v).drop_last() =~= s.drop_last().update(i, v));
    }
}

/// The sum of two sequences added entry by entry is the sum of their sums.
pub proof fn lemma_sum_add(a: Seq<int>, b: Seq<int>, c: Seq<int>)
    requires
        a.len() == b.len(),
        a.len() == c.len(),
        forall|j: int| 0 <= j < a.len() ==> #[trigger] c[j] == a[j] + b[j],
    ensures
        seq_sum(c) == seq_sum(a) + seq_sum(b),
    decreases a.len(),
{
    if a.len() > 0 {
        lemma_sum_add(a.drop_last(), b.drop_last(), c.drop_last());
    }
}

/// Summing the entries at a list of distinct indices gives the whole sum,
/// provided every entry that the list misses is 0.
pub proof fn lemma_sum_picked(vals: Seq<int>, list: Seq<int>)
    requires
        distinct_indices(list, vals.len() as int),
        forall|j: int| 0 <= j < vals.len() && !list.contains(j) ==> #[trigger] vals[j] == 0,
    ensures
        seq_sum(picked(vals, list)) == seq_sum(vals),
    decreases list.len(),
{
    if list.len() == 0 {
        assert forall|j: int| 0 <= j < vals.len() implies #[trigger] vals[j] == 0 by {
            assert(!list.contains(j));
        }
        lemma_sum_zero(vals);
        assert(picked(vals, list) =~= Seq::<int>::empty());
    } else {
        let x = list.last();
        let rest = list.drop_last();
        let cleared = vals.update(x, 0);
        assert(list[list.len() - 1] == x);
        assert forall|j: int| 0 <= j < cleared.len() && !rest.contains(j) implies #[trigger] cleared[j] == 0 by {
            if j != x {
                if list.contains(j) {
                    let q = choose|q: int| 0 <= q < list.len() && list[q] == j;
                    assert(q < rest.len());
                    assert(rest[q] == j);
                }
            }
        }
        assert(distinct_indices(rest, cleared.len() as int)) by {
            assert forall|q: int| 0 <= q < rest.len() implies 0 <= #[trigger] rest[q] < cleared.len() by {
                assert(rest[q] == list[q]);
            }
            assert forall|p: int, q: int| 0 <= p < q < rest.len() implies rest[p] != rest[q] by {
                assert(rest[p] == list[p] && rest[q] == list[q]);
            }
        }
        lemma_sum_picked(cleared, rest);
        assert(picked(cleared, rest) =~= picked(vals, rest)) by {
            assert forall|q: int| 0 <= q < rest.len() implies cleared[rest[q]] == vals[rest[q]] by {
                assert(rest[q] == list[q]);
            }
        }
        lemma_sum_update(vals, x, 0);
        assert(picked(vals, list) =~= picked(vals, rest).push(vals[x]));
        lemma_sum_push(picked(vals, rest), vals[x]);
    }
}

/// `before` orders the indices below `n` strictly and totally.
pub open spec fn strict_total_order(before: spec_fn(int, int) -> bool, n: int) -> bool {
    &&& forall|a: int| 0 <= a < n ==> !#[trigger] before(a, a)
    &&& forall|a: int, b: int|
        0 <= a < n && 0 <= b < n && a != b ==> (#[trigger] before(a, b) || before(b, a))
    &&& forall|a: int, b: int, c: int|
        0 <= a < n && 0 <= b < n && 0 <= c < n && #[trigger] before(a, b) && #[trigger] before(
            b,
            c,
        ) ==> before(a, c)
}

/// Where the block of summand `i` starts when the summands are laid out in
/// the order `before`: the sum of the summands that come before `i`.
pub open spec fn block_start(sizes: Seq<int>, before: spec_fn(int, int) -> bool, i: int) -> int {
    seq_sum(masked(sizes, |j: int| before(j, i)))
}

/// Whether `x` lies in the block of summand `i`.
pub open spec fn in_block(sizes: Seq<int>, before: spec_fn(int, int) -> bool, i: int, x: int) -> bool {
    &&& 0 <= i < sizes.len()
    &&& block_start(sizes, before, i) <= x < block_start(sizes, before, i) + sizes[i]
}

/// Every block starts at or after 0 and ends within the total.
pub proof fn lemma_block_within(sizes: Seq<int>, before: spec_fn(int, int) -> bool, i: int)
    requires
        all_nonneg(sizes),
        strict_total_order(before, sizes.len() as int),
        0 <= i < sizes.len(),
    ensures
        0 <= block_start(sizes, before, i),
        block_start(sizes, before, i) + sizes[i] <= seq_sum(sizes),
{
    let m = masked(sizes, |j: int| before(j, i));
    lemma_sum_nonneg(m);
    let with_i = m.update(i, sizes[i]);
    lemma_sum_update(m, i, sizes[i]);
    assert(m[i] == 0);
    lemma_sum_le(with_i, sizes);
}

/// The block of a summand ends before the block of any later summand starts.
pub proof fn lemma_blocks_ordered(sizes: Seq<int>, before: spec_fn(int, int) -> bool, i: int, k: int)
    requires
        all_nonneg(sizes),
        strict_total_order(before, sizes.len() as int),
        0 <= i < sizes.len(),
        0 <= k < sizes.len(),
        before(i, k),
    ensures
        block_start(sizes, before, i) + sizes[i] <= block_start(sizes, before, k),
{
    let mi = masked(sizes, |j: int| before(j, i));
    let mk = masked(sizes, |j: int| before(j, k));
    let with_i = mi.update(i, sizes[i]);
    lemma_sum_update(mi, i, sizes[i]);
    assert(mi[i] == 0);
    assert forall|j: int| 0 <= j < with_i.len() implies #[trigger] with_i[j] <= mk[j] by {
        if j != i && before(j, i) {
            assert(before(j, k));
        }
    }
    lemma_sum_le(with_i, mk);
}

/// No number lies in the blocks of two different summands.
pub proof fn lemma_block_unique(sizes: Seq<int>, before: spec_fn(int, int) -> bool, i: int, k: int, x: int)
    requires
        all_nonneg(sizes),
        strict_total_order(before, sizes.len() as int),
        in_block(sizes, before, i, x),
        in_block(sizes, before, k, x),
    ensures
        i == k,
{
    if i != k {
        if before(i, k) {
            lemma_blocks_ordered(sizes, before, i, k);
        } else {
            assert(before(k, i));
            lemma_blocks_ordered(sizes, before, k, i);
        }
    }
}

/// Every number from 0 up to the total lies in some block.
pub proof fn lemma_block_exists(sizes: Seq<int>, before: spec_fn(int, int) -> bool, x: int) -> (i: int)
    requires
        all_nonneg(sizes),
        strict_total_order(before, sizes.len() as int),
        0 <= x < seq_sum(sizes),
    ensures
        in_block(sizes, before, i, x),
    decreases sizes.len(),
{
    let n = sizes.len() as int;
    let m = n - 1;
    assert(n > 0);
    let head = sizes.drop_last();
    assert(all_nonneg(head));
    assert(strict_total_order(before, head.len() as int));
    // Where the last summand starts among the others.
    let bm = masked(sizes, |j: int| before(j, m));
    let bm_head = masked(head, |j: int| before(j, m));
    assert(bm.drop_last() =~= bm_head);
    assert(bm.last() == 0);
    let start_m = seq_sum(bm_head);
    assert(block_start(sizes, before, m) == start_m);
    lemma_sum_le(bm_head, head);
    lemma_sum_nonneg(bm_head);
    if x < start_m {
        let i = lemma_block_exists(head, before, x);
        let mi = masked(sizes, |j: int| before(j, i));
        let mi_head = masked(head, |j: int| before(j, i));
        assert(mi.drop_last() =~= mi_head);
        if before(m, i) {
            assert forall|j: int| 0 <= j < bm_head.len() implies #[trigger] bm_head[j] <= mi_head[j] by {
                if before(j, m) {
                    assert(before(j, i));
                }
            }
            lemma_sum_le(bm_head, mi_head);
            assert(false);
        }
        assert(mi.last() == 0);
        i
    } else if x < start_m + sizes[m] {
        m
    } else {
        let y = x - sizes[m];
        let i = lemma_block_exists(head, before, y);
        let mi = masked(sizes, |j: int| before(j, i));
        let mi_head = masked(head, |j: int| before(j, i));
        assert(mi.drop_last() =~= mi_head);
        if !before(m, i) {
            assert(before(i, m));
            let with_i = mi_head.update(i, head[i]);
            lemma_sum_update(mi_head, i, head[i]);
            assert(mi_head[i] == 0);
            assert forall|j: int| 0 <= j < with_i.len() implies #[trigger] with_i[j] <= bm_head[j] by {
                if j != i && before(j, i) {
                    assert(before(j, m));
                }
            }
            lemma_sum_le(with_i, bm_head);
            assert(false);
        }
        assert(mi.last() == sizes[m]);
        i
    }
}

/// Where a list holds summands in the order `before`, the summands listed
/// ahead of an entry add up to the start of that entry's block, provided that
/// every summand that comes before the entry and is not listed ahead of it
/// is 0.
pub proof fn lemma_block_start_of_listed(
    sizes: Seq<int>,
    before: spec_fn(int, int) -> bool,
    list: Seq<int>,
    q: int,
)
    requires
        strict_total_order(before, sizes.len() as int),
        0 <= q < list.len(),
        forall|p: int| 0 <= p < list.len() ==> 0 <= #[trigger] list[p] < sizes.len(),
        forall|p: int, r: int| 0 <= p < r < list.len() ==> before(list[p], list[r]),
        forall|j: int|
            0 <= j < sizes.len() && before(j, list[q]) && !list.take(q).contains(j) ==> #[trigger] sizes[j]
                == 0,
    ensures
        seq_sum(picked(sizes, list.take(q))) == block_start(sizes, before, list[q]),
{
    let i = list[q];
    let ahead = list.take(q);
    let m = masked(sizes, |j: int| before(j, i));
    assert(distinct_indices(ahead, m.len() as int)) by {
        assert forall|p: int| 0 <= p < ahead.len() implies 0 <= #[trigger] ahead[p] < m.len() by {
            assert(ahead[p] == list[p]);
        }
        assert forall|p: int, r: int| 0 <= p < r < ahead.len() implies ahead[p] != ahead[r] by {
            assert(before(list[p], list[r]));
        }
    }
    lemma_sum_picked(m, ahead);
    assert(picked(m, ahead) =~= picked(sizes, ahead)) by {
        assert forall|p: int| 0 <= p < ahead.len() implies m[ahead[p]] == sizes[ahead[p]] by {
            assert(before(list[p], list[q]));
        }
    }
}

/// A sum of numbers between 0 and `bound` is at most `bound` times their
/// number.
pub proof fn lemma_sum_bounded(s: Seq<int>, bound: int)
    requires
        forall|j: int| 0 <= j < s.len() ==> #[trigger] s[j] <= bound,
    ensures
        seq_sum(s) <= s.len() * bound,
    decreases s.len(),
{
    if s.len() > 0 {
        lemma_sum_bounded(s.drop_last(), bound);
        assert(s.len() * bound == (s.len() - 1) * bound + bound) by (nonlinear_arith);
    }
}

} // verus!
