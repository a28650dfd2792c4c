//! The combinatorics of weight-bounded symbol sequences: how many there are,
//! and the order in which the threshold-bounded code enumerates them.
//!
//! A symbol is an index into the weight list.  A sequence of symbols has the
//! weight that its symbols add up to.

use crate::sums::{
    all_nonneg, block_start, in_block, lemma_block_exists, lemma_block_unique, lemma_block_within,
    lemma_sum_bounded, lemma_sum_le, lemma_sum_nonneg, seq_sum, strict_total_order,
};
use vstd::arithmetic::power2::{
    lemma2_to64, lemma2_to64_rest, lemma_pow2_adds, lemma_pow2_pos, pow2,
};
use vstd::prelude::*;

verus! {

/// Some symbol is free: its weight is 0.
pub open spec fn has_zero_weight(w: Seq<usize>) -> bool {
    exists|i: int| 0 <= i < w.len() && w[i] == 0
}

/// Symbol `j` is scanned before symbol `i` among the successors of a node:
/// lighter symbols first, and of two equally heavy ones the one with the
/// smaller index.
pub open spec fn precedes(w: Seq<usize>, j: int, i: int) -> bool {
    w[j] < w[i] || (w[j] == w[i] && j < i)
}

/// The order of the successors of a node.
pub open spec fn symbol_before(w: Seq<usize>) -> spec_fn(int, int) -> bool {
    |j: int, i: int| precedes(w, j, i)
}

/// The order of the predecessors of a node: that of the successors, turned
/// round.
pub open spec fn symbol_after(w: Seq<usize>) -> spec_fn(int, int) -> bool {
    |j: int, i: int| precedes(w, i, j)
}

/// The two orders of the symbols are strict and total.
pub proof fn lemma_symbol_orders(w: Seq<usize>)
    ensures
        strict_total_order(symbol_before(w), w.len() as int),
        strict_total_order(symbol_after(w), w.len() as int),
{
}

/// Every entry of `s` is a symbol of the weight list `w`.
pub open spec fn is_symbols(w: Seq<usize>, s: Seq<int>) -> bool {
    forall|k: int| 0 <= k < s.len() ==> 0 <= #[trigger] s[k] < w.len()
}

/// The weight of a symbol sequence.
pub open spec fn weight_of(w: Seq<usize>, s: Seq<int>) -> int
    decreases s.len(),
{
    if s.len() == 0 {
        0
    } else {
        weight_of(w, s.drop_last()) + w[s.last()]
    }
}

/// Some symbol sequence has weight `v`.
pub open spec fn reachable(w: Seq<usize>, v: int) -> bool {
    exists|s: Seq<int>| is_symbols(w, s) && weight_of(w, s) == v
}

/// The number of symbol sequences of length `len` whose weight is at most
/// `budget`.
pub open spec fn fwd_count(w: Seq<usize>, len: nat, budget: int) -> int
    decreases len, 1nat,
{
    if budget < 0 {
        0
    } else if len == 0 {
        1
    } else {
        seq_sum(fwd_branches(w, len, budget))
    }
}

/// For each symbol, the number of sequences counted by
/// `fwd_count(w, len, budget)` that start with it.
pub open spec fn fwd_branches(w: Seq<usize>, len: nat, budget: int) -> Seq<int>
    decreases len, 0nat,
{
    Seq::new(
        w.len(),
        |j: int|
            if len > 0 {
                fwd_count(w, (len - 1) as nat, budget - w[j])
            } else {
                0
            },
    )
}

/// The number of sequences that the threshold-bounded code enumerates before
/// the first one that starts with symbol `i`.
pub open spec fn fwd_below(w: Seq<usize>, len: nat, budget: int, i: int) -> int {
    block_start(fwd_branches(w, len, budget), symbol_before(w), i)
}

/// `s` is one of the sequences that `fwd_count(w, len, budget)` counts.
pub open spec fn fwd_valid(w: Seq<usize>, len: nat, budget: int, s: Seq<int>) -> bool {
    &&& s.len() == len
    &&& is_symbols(w, s)
    &&& weight_of(w, s) <= budget
}

/// The place of `s` in the enumeration of the threshold-bounded code: stage
/// by stage, the sequences that leave the path of `s` through a successor
/// scanned before the one that `s` takes.
pub open spec fn fwd_rank(w: Seq<usize>, budget: int, s: Seq<int>) -> int
    decreases s.len(),
{
    if s.len() == 0 {
        0
    } else {
        fwd_below(w, s.len(), budget, s[0]) + fwd_rank(w, budget - w[s[0]], s.drop_first())
    }
}

/// The first symbol of the sequence at place `x`.
pub open spec fn fwd_select(w: Seq<usize>, len: nat, budget: int, x: int) -> int {
    choose|i: int| in_block(fwd_branches(w, len, budget), symbol_before(w), i, x)
}

/// The sequence at place `x` of the enumeration.
pub open spec fn fwd_unrank(w: Seq<usize>, len: nat, budget: int, x: int) -> Seq<int>
    decreases len,
{
    if len == 0 {
        Seq::empty()
    } else {
        let i = fwd_select(w, len, budget, x);
        seq![i] + fwd_unrank(w, (len - 1) as nat, budget - w[i], x - fwd_below(w, len, budget, i))
    }
}

/// No count is negative.
pub proof fn lemma_fwd_count_nonneg(w: Seq<usize>, len: nat, budget: int)
    ensures
        fwd_count(w, len, budget) >= 0,
        len > 0 ==> all_nonneg(fwd_branches(w, len, budget)),
    decreases len,
{
    if len > 0 {
        let b = fwd_branches(w, len, budget);
        assert forall|j: int| 0 <= j < b.len() implies #[trigger] b[j] >= 0 by {
            lemma_fwd_count_nonneg(w, (len - 1) as nat, budget - w[j]);
        }
        lemma_sum_nonneg(b);
    }
}

/// The sequences within a budget with a stage before them are those of each
/// first symbol, also where the budget is negative and there are none.
pub proof fn lemma_fwd_count_unfold(w: Seq<usize>, len: nat, budget: int)
    requires
        len > 0,
    ensures
        fwd_count(w, len, budget) == seq_sum(fwd_branches(w, len, budget)),
{
    if budget < 0 {
        let b = fwd_branches(w, len, budget);
        assert forall|j: int| 0 <= j < b.len() implies #[trigger] b[j] == 0 by {}
        crate::sums::lemma_sum_zero(b);
    }
}

/// With a free symbol, every budget that is not negative admits a sequence.
pub proof fn lemma_fwd_count_positive(w: Seq<usize>, len: nat, budget: int)
    requires
        has_zero_weight(w),
        budget >= 0,
    ensures
        fwd_count(w, len, budget) >= 1,
    decreases len,
{
    if len > 0 {
        let z = choose|i: int| 0 <= i < w.len() && w[i] == 0;
        lemma_fwd_count_positive(w, (len - 1) as nat, budget);
        lemma_fwd_count_nonneg(w, len, budget);
        lemma_symbol_orders(w);
        lemma_block_within(fwd_branches(w, len, budget), symbol_before(w), z);
    }
}

/// No sequence of symbols has a negative weight.
pub proof fn lemma_weight_nonneg(w: Seq<usize>, s: Seq<int>)
    requires
        is_symbols(w, s),
    ensures
        weight_of(w, s) >= 0,
    decreases s.len(),
{
    if s.len() > 0 {
        lemma_weight_nonneg(w, s.drop_last());
    }
}

/// The weight of a sequence is that of its first symbol and that of the rest.
pub proof fn lemma_weight_first(w: Seq<usize>, s: Seq<int>)
    requires
        s.len() > 0,
    ensures
        weight_of(w, s) == w[s[0]] + weight_of(w, s.drop_first()),
    decreases s.len(),
{
    if s.len() == 1 {
        assert(s.drop_last() =~= Seq::<int>::empty());
        assert(s.drop_first() =~= Seq::<int>::empty());
    } else {
        lemma_weight_first(w, s.drop_last());
        assert(s.drop_last().drop_first() =~= s.drop_first().drop_last());
    }
}

/// No prefix of a sequence weighs more than the whole.
pub proof fn lemma_weight_prefix(w: Seq<usize>, s: Seq<int>, k: int)
    requires
        is_symbols(w, s),
        0 <= k <= s.len(),
    ensures
        0 <= weight_of(w, s.take(k)) <= weight_of(w, s),
    decreases s.len() - k,
{
    if k == s.len() {
        assert(s.take(k) =~= s);
        lemma_weight_nonneg(w, s);
    } else {
        lemma_weight_prefix(w, s, k + 1);
        assert(s.take(k + 1).drop_last() =~= s.take(k));
        lemma_weight_nonneg(w, s.take(k));
    }
}

/// The place of a counted sequence lies below the count.
pub proof fn lemma_fwd_rank_range(w: Seq<usize>, len: nat, budget: int, s: Seq<int>)
    requires
        fwd_valid(w, len, budget, s),
    ensures
        0 <= fwd_rank(w, budget, s) < fwd_count(w, len, budget),
    decreases len,
{
    lemma_weight_nonneg(w, s);
    if len > 0 {
        let rest = s.drop_first();
        lemma_weight_first(w, s);
        lemma_fwd_rank_range(w, (len - 1) as nat, budget - w[s[0]], rest);
        lemma_fwd_count_nonneg(w, len, budget);
        lemma_fwd_count_unfold(w, len, budget);
        lemma_symbol_orders(w);
        lemma_block_within(fwd_branches(w, len, budget), symbol_before(w), s[0]);
    }
}

/// The first symbol of the sequence at place `x` is the one whose block of
/// places holds `x`.
pub proof fn lemma_fwd_select(w: Seq<usize>, len: nat, budget: int, x: int)
    requires
        len > 0,
        0 <= x < fwd_count(w, len, budget),
    ensures
        in_block(fwd_branches(w, len, budget), symbol_before(w), fwd_select(w, len, budget, x), x),
{
    lemma_fwd_count_nonneg(w, len, budget);
    lemma_fwd_count_unfold(w, len, budget);
    lemma_symbol_orders(w);
    let i = lemma_block_exists(fwd_branches(w, len, budget), symbol_before(w), x);
}

/// A symbol whose block of places holds `x` is the first symbol of the
/// sequence at place `x`.
pub proof fn lemma_fwd_select_is(w: Seq<usize>, len: nat, budget: int, x: int, i: int)
    requires
        len > 0,
        in_block(fwd_branches(w, len, budget), symbol_before(w), i, x),
    ensures
        fwd_select(w, len, budget, x) == i,
{
    lemma_fwd_count_nonneg(w, len, budget);
    lemma_symbol_orders(w);
    lemma_block_unique(
        fwd_branches(w, len, budget),
        symbol_before(w),
        i,
        fwd_select(w, len, budget, x),
        x,
    );
}

/// Every place below the count holds a counted sequence, and that sequence
/// has this place.
pub proof fn lemma_fwd_unrank(w: Seq<usize>, len: nat, budget: int, x: int)
    requires
        0 <= x < fwd_count(w, len, budget),
    ensures
        fwd_valid(w, len, budget, fwd_unrank(w, len, budget, x)),
        fwd_rank(w, budget, fwd_unrank(w, len, budget, x)) == x,
    decreases len,
{
    let s = fwd_unrank(w, len, budget, x);
    if len == 0 {
    } else {
        lemma_fwd_select(w, len, budget, x);
        let i = fwd_select(w, len, budget, x);
        let rest = fwd_unrank(w, (len - 1) as nat, budget - w[i], x - fwd_below(w, len, budget, i));
        lemma_fwd_unrank(w, (len - 1) as nat, budget - w[i], x - fwd_below(w, len, budget, i));
        assert(s.drop_first() =~= rest);
        assert(s[0] == i);
        lemma_weight_first(w, s);
        assert forall|k: int| 0 <= k < s.len() implies 0 <= #[trigger] s[k] < w.len() by {
            if k > 0 {
                assert(s[k] == rest[k - 1]);
            }
        }
    }
}

/// A counted sequence stands at the place that is its rank.
pub proof fn lemma_fwd_unrank_of_rank(w: Seq<usize>, len: nat, budget: int, s: Seq<int>)
    requires
        fwd_valid(w, len, budget, s),
    ensures
        fwd_unrank(w, len, budget, fwd_rank(w, budget, s)) == s,
    decreases len,
{
    if len == 0 {
        assert(s =~= Seq::<int>::empty());
    } else {
        let i = s[0];
        let rest = s.drop_first();
        let x = fwd_rank(w, budget, s);
        lemma_weight_first(w, s);
        lemma_fwd_rank_range(w, (len - 1) as nat, budget - w[i], rest);
        lemma_fwd_select_is(w, len, budget, x, i);
        lemma_fwd_unrank_of_rank(w, (len - 1) as nat, budget - w[i], rest);
        assert(fwd_unrank(w, len, budget, x) =~= s);
    }
}

/// `v` is an entry of the list `l`.
pub open spec fn lists(l: Seq<usize>, v: int) -> bool {
    exists|c: int| 0 <= c < l.len() && l[c] == v
}

/// Every entry of `l` is larger than the one before it.
pub open spec fn strictly_increasing(l: Seq<usize>) -> bool {
    forall|a: int, b: int| 0 <= a < b < l.len() ==> l[a] < l[b]
}

/// `l` lists, in rising order, exactly the weights up to `cap` that some
/// symbol sequence has.
pub open spec fn lists_levels(w: Seq<usize>, cap: int, l: Seq<usize>) -> bool {
    &&& strictly_increasing(l)
    &&& forall|c: int| 0 <= c < l.len() ==> #[trigger] l[c] <= cap && reachable(w, l[c] as int)
    &&& forall|v: int| 0 <= v <= cap && #[trigger] reachable(w, v) ==> lists(l, v)
}

/// The empty sequence has weight 0.
pub proof fn lemma_reachable_zero(w: Seq<usize>)
    ensures
        reachable(w, 0),
{
    let s = Seq::<int>::empty();
    assert(is_symbols(w, s) && weight_of(w, s) == 0);
}

/// A sequence with one symbol more weighs more by the weight of that symbol.
pub proof fn lemma_reachable_step(w: Seq<usize>, v: int, j: int)
    requires
        reachable(w, v),
        0 <= j < w.len(),
    ensures
        reachable(w, v + w[j]),
{
    let s = choose|s: Seq<int>| is_symbols(w, s) && weight_of(w, s) == v;
    let t = s.push(j);
    assert(t.drop_last() =~= s);
    assert(is_symbols(w, t) && weight_of(w, t) == v + w[j]);
}

/// Only a weight that is not negative is the weight of a sequence.
pub proof fn lemma_reachable_nonneg(w: Seq<usize>, v: int)
    requires
        reachable(w, v),
    ensures
        v >= 0,
{
    let s = choose|s: Seq<int>| is_symbols(w, s) && weight_of(w, s) == v;
    lemma_weight_nonneg(w, s);
}

proof fn lemma_closed_holds_weight(w: Seq<usize>, cap: int, l: Seq<usize>, s: Seq<int>)
    requires
        lists(l, 0),
        forall|q: int, j: int|
            0 <= q < l.len() && 0 <= j < w.len() && l[q] + w[j] <= cap ==> lists(
                l,
                #[trigger] (l[q] + w[j]),
            ),
        is_symbols(w, s),
        weight_of(w, s) <= cap,
    ensures
        lists(l, weight_of(w, s)),
    decreases s.len(),
{
    if s.len() > 0 {
        let head = s.drop_last();
        lemma_weight_nonneg(w, head);
        lemma_closed_holds_weight(w, cap, l, head);
        let q = choose|q: int| 0 <= q < l.len() && l[q] == weight_of(w, head);
        assert(lists(l, l[q] + w[s.last()]));
    }
}

/// A list that holds 0 and, with each entry, every sum of it and one weight
/// that stays within `cap`, holds every weight up to `cap` that some symbol
/// sequence has.
pub proof fn lemma_closed_holds_reachable(w: Seq<usize>, cap: int, l: Seq<usize>)
    requires
        lists(l, 0),
        forall|q: int, j: int|
            0 <= q < l.len() && 0 <= j < w.len() && l[q] + w[j] <= cap ==> lists(
                l,
                #[trigger] (l[q] + w[j]),
            ),
    ensures
        forall|v: int| 0 <= v <= cap && #[trigger] reachable(w, v) ==> lists(l, v),
{
    assert forall|v: int| 0 <= v <= cap && #[trigger] reachable(w, v) implies lists(l, v) by {
        let s = choose|s: Seq<int>| is_symbols(w, s) && weight_of(w, s) == v;
        lemma_closed_holds_weight(w, cap, l, s);
    }
}

/// There are fewer than two to the power 64 symbols, so fewer than two to
/// the power `64 * len` sequences of length `len`.
pub proof fn lemma_fwd_count_bound(w: Seq<usize>, len: nat, budget: int)
    requires
        w.len() <= usize::MAX,
    ensures
        fwd_count(w, len, budget) <= pow2(64 * len),
    decreases len,
{
    lemma_pow2_pos(64 * len);
    if len == 0 {
        lemma2_to64();
    } else if budget >= 0 {
        let b = fwd_branches(w, len, budget);
        let bound = pow2((64 * (len - 1)) as nat) as int;
        assert forall|j: int| 0 <= j < b.len() implies #[trigger] b[j] <= bound by {
            lemma_fwd_count_bound(w, (len - 1) as nat, budget - w[j]);
        }
        lemma_sum_bounded(b, bound);
        lemma2_to64();
        lemma2_to64_rest();
        lemma_pow2_adds(64, (64 * (len - 1)) as nat);
        lemma_pow2_pos((64 * (len - 1)) as nat);
        assert(b.len() * bound <= pow2(64) * bound) by (nonlinear_arith)
            requires
                b.len() <= pow2(64),
                bound >= 0,
        ;
    }
}

/// The number of symbol sequences of length `len` whose weight is exactly
/// `v`.
pub open spec fn rev_count(w: Seq<usize>, len: nat, v: int) -> int
    decreases len, 1nat,
{
    if v < 0 {
        0
    } else if len == 0 {
        if v == 0 {
            1
        } else {
            0
        }
    } else {
        seq_sum(rev_branches(w, len, v))
    }
}

/// For each symbol, the number of sequences counted by
/// `rev_count(w, len, v)` that end with it.
pub open spec fn rev_branches(w: Seq<usize>, len: nat, v: int) -> Seq<int>
    decreases len, 0nat,
{
    Seq::new(
        w.len(),
        |j: int|
            if len > 0 {
                rev_count(w, (len - 1) as nat, v - w[j])
            } else {
                0
            },
    )
}

/// The number of symbol sequences of length `len` whose weight is one of
/// 0, 1, ... `bound`.
pub open spec fn rev_total(w: Seq<usize>, len: nat, bound: int) -> int
    decreases bound + 1,
{
    if bound < 0 {
        0
    } else {
        rev_total(w, len, bound - 1) + rev_count(w, len, bound)
    }
}

/// No count is negative.
pub proof fn lemma_rev_count_nonneg(w: Seq<usize>, len: nat, v: int)
    ensures
        rev_count(w, len, v) >= 0,
        len > 0 ==> all_nonneg(rev_branches(w, len, v)),
    decreases len,
{
    if len > 0 {
        let b = rev_branches(w, len, v);
        assert forall|j: int| 0 <= j < b.len() implies #[trigger] b[j] >= 0 by {
            lemma_rev_count_nonneg(w, (len - 1) as nat, v - w[j]);
        }
        lemma_sum_nonneg(b);
    }
}

/// The sequences of a weight with a stage behind them are those of each last
/// symbol, also where the weight is negative and there are none.
pub proof fn lemma_rev_count_unfold(w: Seq<usize>, len: nat, v: int)
    requires
        len > 0,
    ensures
        rev_count(w, len, v) == seq_sum(rev_branches(w, len, v)),
{
    if v < 0 {
        let b = rev_branches(w, len, v);
        assert forall|j: int| 0 <= j < b.len() implies #[trigger] b[j] == 0 by {}
        crate::sums::lemma_sum_zero(b);
    }
}

/// Only a weight that some sequence has is counted.
pub proof fn lemma_rev_count_reachable(w: Seq<usize>, len: nat, v: int)
    requires
        rev_count(w, len, v) != 0,
    ensures
        reachable(w, v),
    decreases len,
{
    if len == 0 {
        lemma_reachable_zero(w);
    } else {
        let b = rev_branches(w, len, v);
        if forall|j: int| 0 <= j < b.len() ==> #[trigger] b[j] == 0 {
            crate::sums::lemma_sum_zero(b);
        }
        let j = choose|j: int| 0 <= j < b.len() && #[trigger] b[j] != 0;
        lemma_rev_count_reachable(w, (len - 1) as nat, v - w[j]);
        lemma_reachable_step(w, v - w[j], j);
    }
}

/// A larger bound admits at least as many sequences, and no total is
/// negative.
pub proof fn lemma_rev_total_monotone(w: Seq<usize>, len: nat, a: int, b: int)
    requires
        a <= b,
    ensures
        0 <= rev_total(w, len, a) <= rev_total(w, len, b),
    decreases b - a, b + 1,
{
    if a < b {
        lemma_rev_total_monotone(w, len, a, b - 1);
        if b >= 0 {
            lemma_rev_count_nonneg(w, len, b);
        }
    } else if a >= 0 {
        lemma_rev_total_monotone(w, len, a - 1, a - 1);
        lemma_rev_count_nonneg(w, len, a);
    }
}

/// Between two bounds with no weight of a sequence above the lower and up to
/// the higher, the total does not change.
pub proof fn lemma_rev_total_gap(w: Seq<usize>, len: nat, a: int, b: int)
    requires
        a <= b,
        forall|v: int| a < v <= b ==> !#[trigger] reachable(w, v),
    ensures
        rev_total(w, len, a) == rev_total(w, len, b),
    decreases b - a,
{
    if a < b {
        lemma_rev_total_gap(w, len, a, b - 1);
        if b >= 0 {
            if rev_count(w, len, b) != 0 {
                lemma_rev_count_reachable(w, len, b);
                assert(false);
            }
        }
    }
}

/// The sequences of weight up to a bound are those of each last symbol, whose
/// rest keeps within what that symbol leaves of the bound.
pub proof fn lemma_rev_total_columns(w: Seq<usize>, len: nat, bound: int)
    requires
        len > 0,
    ensures
        rev_total(w, len, bound) == seq_sum(
            Seq::new(w.len(), |j: int| rev_total(w, (len - 1) as nat, bound - w[j])),
        ),
    decreases bound + 1,
{
    let col = Seq::new(w.len(), |j: int| rev_total(w, (len - 1) as nat, bound - w[j]));
    if bound < 0 {
        crate::sums::lemma_sum_zero(col);
    } else {
        let prev = Seq::new(w.len(), |j: int| rev_total(w, (len - 1) as nat, bound - 1 - w[j]));
        lemma_rev_total_columns(w, len, bound - 1);
        lemma_rev_count_unfold(w, len, bound);
        crate::sums::lemma_sum_add(prev, rev_branches(w, len, bound), col);
    }
}

/// Count conservation: the sequences of length `len` whose weight is at most
/// `bound`, counted at once, are as many as those of each weight from 0 to
/// `bound` counted one weight at a time.
pub proof fn lemma_count_conservation(w: Seq<usize>, len: nat, bound: int)
    ensures
        fwd_count(w, len, bound) == rev_total(w, len, bound),
    decreases len, bound + 1,
{
    if bound < 0 {
    } else if len == 0 {
        lemma_count_conservation(w, len, bound - 1);
    } else {
        lemma_rev_total_columns(w, len, bound);
        let col = Seq::new(w.len(), |j: int| rev_total(w, (len - 1) as nat, bound - w[j]));
        assert(col =~= fwd_branches(w, len, bound)) by {
            assert forall|j: int| 0 <= j < col.len() implies col[j] == fwd_branches(w, len, bound)[j] by {
                lemma_count_conservation(w, (len - 1) as nat, bound - w[j]);
            }
        }
    }
}

/// The number of sequences that the energy-ordered code enumerates, among
/// those of length `len` and weight `v`, before the first one that ends with
/// symbol `i`.
pub open spec fn rev_below(w: Seq<usize>, len: nat, v: int, i: int) -> int {
    block_start(rev_branches(w, len, v), symbol_after(w), i)
}

/// `s` is one of the sequences that `rev_count(w, len, v)` counts.
pub open spec fn rev_valid(w: Seq<usize>, len: nat, v: int, s: Seq<int>) -> bool {
    &&& s.len() == len
    &&& is_symbols(w, s)
    &&& weight_of(w, s) == v
}

/// The place of `s` among the sequences of its length and weight in the
/// enumeration of the energy-ordered code: from the last stage back, the
/// sequences that reach the path of `s` through a predecessor scanned before
/// the one that `s` comes from.
pub open spec fn rev_rank_within(w: Seq<usize>, s: Seq<int>) -> int
    decreases s.len(),
{
    if s.len() == 0 {
        0
    } else {
        rev_below(w, s.len(), weight_of(w, s), s.last()) + rev_rank_within(w, s.drop_last())
    }
}

/// The place of `s` in the enumeration of the energy-ordered code: after all
/// sequences of its length and lower weight.
pub open spec fn rev_rank(w: Seq<usize>, s: Seq<int>) -> int {
    rev_total(w, s.len(), weight_of(w, s) - 1) + rev_rank_within(w, s)
}

/// The last symbol of the sequence at place `x` among those of length `len`
/// and weight `v`.
pub open spec fn rev_select(w: Seq<usize>, len: nat, v: int, x: int) -> int {
    choose|i: int| in_block(rev_branches(w, len, v), symbol_after(w), i, x)
}

/// The sequence at place `x` among those of length `len` and weight `v`.
pub open spec fn rev_unrank_within(w: Seq<usize>, len: nat, v: int, x: int) -> Seq<int>
    decreases len,
{
    if len == 0 {
        Seq::empty()
    } else {
        let i = rev_select(w, len, v, x);
        rev_unrank_within(w, (len - 1) as nat, v - w[i], x - rev_below(w, len, v, i)).push(i)
    }
}

/// `x` is the place of a sequence of length `len` and weight `v`.
pub open spec fn in_level(w: Seq<usize>, len: nat, v: int, x: int) -> bool {
    v >= 0 && rev_total(w, len, v - 1) <= x < rev_total(w, len, v)
}

/// The weight of the sequence at place `x`.
pub open spec fn rev_level(w: Seq<usize>, len: nat, x: int) -> int {
    choose|v: int| in_level(w, len, v, x)
}

/// The sequence at place `x` of the enumeration of the energy-ordered code.
pub open spec fn rev_unrank(w: Seq<usize>, len: nat, x: int) -> Seq<int> {
    let v = rev_level(w, len, x);
    rev_unrank_within(w, len, v, x - rev_total(w, len, v - 1))
}

/// The place of a sequence among those of its length and weight lies below
/// their number.
pub proof fn lemma_rev_rank_within_range(w: Seq<usize>, len: nat, v: int, s: Seq<int>)
    requires
        rev_valid(w, len, v, s),
    ensures
        0 <= rev_rank_within(w, s) < rev_count(w, len, v),
    decreases len,
{
    lemma_weight_nonneg(w, s);
    if len > 0 {
        let rest = s.drop_last();
        lemma_rev_rank_within_range(w, (len - 1) as nat, v - w[s.last()], rest);
        lemma_rev_count_nonneg(w, len, v);
        lemma_rev_count_unfold(w, len, v);
        lemma_symbol_orders(w);
        lemma_block_within(rev_branches(w, len, v), symbol_after(w), s.last());
    }
}

/// The last symbol of the sequence at place `x` is the one whose block of
/// places holds `x`.
pub proof fn lemma_rev_select(w: Seq<usize>, len: nat, v: int, x: int)
    requires
        len > 0,
        0 <= x < rev_count(w, len, v),
    ensures
        in_block(rev_branches(w, len, v), symbol_after(w), rev_select(w, len, v, x), x),
{
    lemma_rev_count_nonneg(w, len, v);
    lemma_rev_count_unfold(w, len, v);
    lemma_symbol_orders(w);
    let i = lemma_block_exists(rev_branches(w, len, v), symbol_after(w), x);
}

/// A symbol whose block of places holds `x` is the last symbol of the
/// sequence at place `x`.
pub proof fn lemma_rev_select_is(w: Seq<usize>, len: nat, v: int, x: int, i: int)
    requires
        len > 0,
        in_block(rev_branches(w, len, v), symbol_after(w), i, x),
    ensures
        rev_select(w, len, v, x) == i,
{
    lemma_rev_count_nonneg(w, len, v);
    lemma_symbol_orders(w);
    lemma_block_unique(rev_branches(w, len, v), symbol_after(w), i, rev_select(w, len, v, x), x);
}

/// Every place below the count holds a counted sequence, and that sequence
/// has this place.
pub proof fn lemma_rev_unrank_within(w: Seq<usize>, len: nat, v: int, x: int)
    requires
        0 <= x < rev_count(w, len, v),
    ensures
        rev_valid(w, len, v, rev_unrank_within(w, len, v, x)),
        rev_rank_within(w, rev_unrank_within(w, len, v, x)) == x,
    decreases len,
{
    let s = rev_unrank_within(w, len, v, x);
    if len > 0 {
        lemma_rev_select(w, len, v, x);
        let i = rev_select(w, len, v, x);
        let rest = rev_unrank_within(w, (len - 1) as nat, v - w[i], x - rev_below(w, len, v, i));
        lemma_rev_unrank_within(w, (len - 1) as nat, v - w[i], x - rev_below(w, len, v, i));
        assert(s.drop_last() =~= rest);
        assert(s.last() == i);
        assert forall|k: int| 0 <= k < s.len() implies 0 <= #[trigger] s[k] < w.len() by {
            if k < rest.len() {
                assert(s[k] == rest[k]);
            }
        }
    }
}

/// A counted sequence stands at the place that is its rank.
pub proof fn lemma_rev_unrank_within_of_rank(w: Seq<usize>, len: nat, v: int, s: Seq<int>)
    requires
        rev_valid(w, len, v, s),
    ensures
        rev_unrank_within(w, len, v, rev_rank_within(w, s)) == s,
    decreases len,
{
    if len == 0 {
        assert(s =~= Seq::<int>::empty());
    } else {
        let i = s.last();
        let rest = s.drop_last();
        let x = rev_rank_within(w, s);
        lemma_rev_rank_within_range(w, (len - 1) as nat, v - w[i], rest);
        lemma_rev_select_is(w, len, v, x, i);
        lemma_rev_unrank_within_of_rank(w, (len - 1) as nat, v - w[i], rest);
        assert(rev_unrank_within(w, len, v, x) =~= s);
    }
}

/// Every place below a total belongs to a weight up to the bound of that
/// total.
pub proof fn lemma_rev_level_exists(w: Seq<usize>, len: nat, bound: int, x: int) -> (v: int)
    requires
        0 <= x < rev_total(w, len, bound),
    ensures
        0 <= v <= bound,
        in_level(w, len, v, x),
    decreases bound + 1,
{
    if x < rev_total(w, len, bound - 1) {
        lemma_rev_level_exists(w, len, bound - 1, x)
    } else {
        bound
    }
}

/// A place belongs to one weight only.
pub proof fn lemma_rev_level_unique(w: Seq<usize>, len: nat, v1: int, v2: int, x: int)
    requires
        in_level(w, len, v1, x),
        in_level(w, len, v2, x),
    ensures
        v1 == v2,
{
    if v1 < v2 {
        lemma_rev_total_monotone(w, len, v1, v2 - 1);
    } else if v2 < v1 {
        lemma_rev_total_monotone(w, len, v2, v1 - 1);
    }
}

/// Every place below the number of sequences of weight up to `bound` holds
/// such a sequence, and that sequence has this place.
pub proof fn lemma_rev_unrank(w: Seq<usize>, len: nat, bound: int, x: int)
    requires
        0 <= x < rev_total(w, len, bound),
    ensures
        fwd_valid(w, len, bound, rev_unrank(w, len, x)),
        rev_rank(w, rev_unrank(w, len, x)) == x,
{
    let v0 = lemma_rev_level_exists(w, len, bound, x);
    let v = rev_level(w, len, x);
    lemma_rev_level_unique(w, len, v0, v, x);
    lemma_rev_unrank_within(w, len, v, x - rev_total(w, len, v - 1));
}

/// A sequence stands at the place that is its rank.
pub proof fn lemma_rev_unrank_of_rank(w: Seq<usize>, s: Seq<int>)
    requires
        is_symbols(w, s),
    ensures
        rev_unrank(w, s.len(), rev_rank(w, s)) == s,
        0 <= rev_rank(w, s) < rev_total(w, s.len(), weight_of(w, s)),
{
    let len = s.len();
    let v = weight_of(w, s);
    let x = rev_rank(w, s);
    lemma_weight_nonneg(w, s);
    lemma_rev_rank_within_range(w, len, v, s);
    lemma_rev_total_monotone(w, len, v - 1, v - 1);
    assert(in_level(w, len, v, x));
    lemma_rev_level_unique(w, len, v, rev_level(w, len, x), x);
    lemma_rev_unrank_within_of_rank(w, len, v, s);
}

/// A list in rising order holds each value once, at the place that its
/// order gives it.
pub proof fn lemma_level_position(l: Seq<usize>, a: int, b: int)
    requires
        strictly_increasing(l),
        0 <= a < l.len(),
        0 <= b < l.len(),
    ensures
        l[a] == l[b] ==> a == b,
        l[a] < l[b] ==> a < b,
        a <= b ==> l[a] <= l[b],
{
}

/// The weight of a sequence is that of a prefix and that of what follows it.
pub proof fn lemma_weight_split(w: Seq<usize>, s: Seq<int>, k: int)
    requires
        0 <= k <= s.len(),
    ensures
        weight_of(w, s) == weight_of(w, s.take(k)) + weight_of(w, s.skip(k)),
    decreases s.len() - k,
{
    if k == s.len() {
        assert(s.take(k) =~= s);
        assert(s.skip(k) =~= Seq::<int>::empty());
    } else {
        lemma_weight_split(w, s, k + 1);
        assert(s.take(k + 1).drop_last() =~= s.take(k));
        crate::counting::lemma_weight_first(w, s.skip(k));
        assert(s.skip(k).drop_first() =~= s.skip(k + 1));
    }
}

/// `x` is the weight of some symbol.
pub open spec fn is_weight(w: Seq<usize>, x: int) -> bool {
    exists|j: int| 0 <= j < w.len() && w[j] == x
}

/// A weight that is no weight of a sequence stays none when the weight of a
/// symbol is taken off.
pub proof fn lemma_unreachable_below(w: Seq<usize>, v: int, x: int)
    requires
        is_weight(w, x),
        !reachable(w, v),
    ensures
        !reachable(w, v - x),
{
    if reachable(w, v - x) {
        let j = choose|j: int| 0 <= j < w.len() && w[j] == x;
        lemma_reachable_step(w, v - x, j);
    }
}

/// With a free symbol there is a sequence of every length within every
/// bound that is not negative.
pub proof fn lemma_rev_total_positive(w: Seq<usize>, len: nat, bound: int)
    requires
        crate::counting::has_zero_weight(w),
        bound >= 0,
    ensures
        rev_total(w, len, bound) >= 1,
{
    crate::counting::lemma_fwd_count_positive(w, len, bound);
    crate::counting::lemma_count_conservation(w, len, bound);
}

/// The reachable weights from just above the weight level `levels[c - 1]`
/// to just below `levels[c]`: there are none.
pub proof fn lemma_no_level_between(w: Seq<usize>, levels: Seq<usize>, c: int, v: int)
    requires
        crate::counting::lists_levels(w, levels.last() as int, levels),
        0 <= c < levels.len(),
        c > 0 ==> levels[c - 1] < v,
        0 <= v < levels[c],
    ensures
        !reachable(w, v),
{
    if reachable(w, v) {
        lemma_level_position(levels, c, levels.len() - 1);
        assert(lists(levels, v));
        let p = choose|p: int| 0 <= p < levels.len() && levels[p] == v;
        lemma_level_position(levels, p, c);
        if c > 0 {
            lemma_level_position(levels, p, c - 1);
        }
    }
}

/// The sequences of weight up to just below a weight level are those of
/// weight up to the weight level before it.
pub proof fn lemma_total_below_level(w: Seq<usize>, len: nat, levels: Seq<usize>, c: int)
    requires
        crate::counting::lists_levels(w, levels.last() as int, levels),
        levels.len() >= 1,
        levels[0] == 0,
        0 <= c < levels.len(),
    ensures
        c == 0 ==> rev_total(w, len, levels[c] - 1) == 0,
        c > 0 ==> rev_total(w, len, levels[c] - 1) == rev_total(w, len, levels[c - 1] as int),
        rev_total(w, len, levels[c] as int) == rev_total(w, len, levels[c] - 1) + rev_count(
            w,
            len,
            levels[c] as int,
        ),
{
    if c > 0 {
        lemma_level_position(levels, c - 1, c);
        assert forall|v: int| levels[c - 1] < v <= levels[c] - 1 implies !#[trigger] reachable(w, v) by {
            lemma_no_level_between(w, levels, c, v);
        }
        lemma_rev_total_gap(w, len, levels[c - 1] as int, levels[c] - 1);
    } else {
        assert(rev_total(w, len, -1) == 0);
    }
}

} // verus!
