//! How often a symbol stands at a stage among the first sequences of an
//! enumeration.

use crate::counting::{
    fwd_below, fwd_branches, fwd_count, fwd_rank, fwd_select, fwd_unrank, fwd_valid, in_level,
    lemma_fwd_count_nonneg, lemma_fwd_count_unfold, lemma_fwd_rank_range, lemma_fwd_select,
    lemma_rev_count_nonneg, lemma_rev_count_unfold, lemma_rev_level_unique,
    lemma_rev_rank_within_range, lemma_rev_select, lemma_rev_total_monotone,
    lemma_rev_unrank_within, lemma_symbol_orders, lemma_weight_first, precedes, rev_below,
    rev_branches, rev_count, rev_level, rev_rank_within, rev_select, rev_total, rev_unrank,
    rev_unrank_within, rev_valid, symbol_after, symbol_before,
};
use crate::sums::{
    all_nonneg, block_start, in_block, lemma_block_within, lemma_blocks_ordered, lemma_sum_update,
    lemma_sum_zero, masked, seq_sum, strict_total_order,
};
use vstd::prelude::*;

verus! {

/// 1 if `b` holds, else 0.
pub open spec fn indicator(b: bool) -> int {
    if b {
        1
    } else {
        0
    }
}

/// How much of the block of summand `i` lies below `k`.
pub open spec fn block_part(sizes: Seq<int>, before: spec_fn(int, int) -> bool, i: int, k: int) -> int {
    let start = block_start(sizes, before, i);
    if k <= start {
        0
    } else if k >= start + sizes[i] {
        sizes[i]
    } else {
        k - start
    }
}

/// A number in the block of one summand adds one to the part of that block
/// that lies below, and nothing to the parts of the others.
pub proof fn lemma_block_part_step(sizes: Seq<int>, before: spec_fn(int, int) -> bool, i: int, k: int)
    requires
        all_nonneg(sizes),
        strict_total_order(before, sizes.len() as int),
        in_block(sizes, before, i, k),
    ensures
        block_part(sizes, before, i, k) == k - block_start(sizes, before, i),
        block_part(sizes, before, i, k + 1) == block_part(sizes, before, i, k) + 1,
        forall|j: int|
            0 <= j < sizes.len() && j != i ==> #[trigger] block_part(sizes, before, j, k + 1)
                == block_part(sizes, before, j, k),
{
    assert forall|j: int| 0 <= j < sizes.len() && j != i implies #[trigger] block_part(
        sizes,
        before,
        j,
        k + 1,
    ) == block_part(sizes, before, j, k) by {
        if before(j, i) {
            lemma_blocks_ordered(sizes, before, j, i);
        } else {
            assert(before(i, j));
            lemma_blocks_ordered(sizes, before, i, j);
        }
    }
}

/// Of a number in the block of a summand, the blocks of the summands before
/// lie below as a whole, and nothing of the blocks of the summands after.
pub proof fn lemma_block_part_at(sizes: Seq<int>, before: spec_fn(int, int) -> bool, i: int, k: int)
    requires
        all_nonneg(sizes),
        strict_total_order(before, sizes.len() as int),
        0 <= i < sizes.len(),
        block_start(sizes, before, i) <= k <= block_start(sizes, before, i) + sizes[i],
    ensures
        block_part(sizes, before, i, k) == k - block_start(sizes, before, i),
        forall|j: int|
            0 <= j < sizes.len() && j != i ==> #[trigger] block_part(sizes, before, j, k) == if before(
                j,
                i,
            ) {
                sizes[j]
            } else {
                0
            },
{
    assert forall|j: int| 0 <= j < sizes.len() && j != i implies #[trigger] block_part(
        sizes,
        before,
        j,
        k,
    ) == if before(j, i) {
        sizes[j]
    } else {
        0
    } by {
        if before(j, i) {
            lemma_blocks_ordered(sizes, before, j, i);
        } else {
            assert(before(i, j));
            lemma_blocks_ordered(sizes, before, i, j);
        }
    }
}

/// Among the sequences at the places `0 .. places` of the enumeration of the
/// threshold-bounded code, the number of those with symbol `a` at position
/// `pos`.
pub open spec fn fwd_occurrences(
    w: Seq<usize>,
    len: nat,
    budget: int,
    places: int,
    pos: int,
    a: int,
) -> int
    decreases places,
{
    if places <= 0 {
        0
    } else {
        fwd_occurrences(w, len, budget, places - 1, pos, a) + indicator(
            fwd_unrank(w, len, budget, places - 1)[pos] == a,
        )
    }
}

/// What the sequences that start with symbol `i` add to
/// `fwd_occurrences(w, len, budget, places, pos, a)`.
pub open spec fn fwd_occurrences_part(
    w: Seq<usize>,
    len: nat,
    budget: int,
    places: int,
    pos: int,
    a: int,
    i: int,
) -> int {
    let part = block_part(fwd_branches(w, len, budget), symbol_before(w), i, places);
    if pos == 0 {
        indicator(i == a) * part
    } else {
        fwd_occurrences(w, (len - 1) as nat, budget - w[i], part, pos - 1, a)
    }
}

/// For each symbol, what the sequences that start with it add.
pub open spec fn fwd_occurrences_parts(
    w: Seq<usize>,
    len: nat,
    budget: int,
    places: int,
    pos: int,
    a: int,
) -> Seq<int> {
    Seq::new(w.len(), |i: int| fwd_occurrences_part(w, len, budget, places, pos, a, i))
}

/// The occurrences among the first sequences are those among the first
/// sequences of each block of sequences with the same first symbol, added up.
pub proof fn lemma_fwd_occurrences_by_blocks(
    w: Seq<usize>,
    len: nat,
    budget: int,
    places: int,
    pos: int,
    a: int,
)
    requires
        0 <= places <= fwd_count(w, len, budget),
        0 <= pos < len,
    ensures
        fwd_occurrences(w, len, budget, places, pos, a) == seq_sum(
            fwd_occurrences_parts(w, len, budget, places, pos, a),
        ),
    decreases places,
{
    let sizes = fwd_branches(w, len, budget);
    let before = symbol_before(w);
    let parts = fwd_occurrences_parts(w, len, budget, places, pos, a);
    lemma_fwd_count_nonneg(w, len, budget);
    lemma_fwd_count_unfold(w, len, budget);
    lemma_symbol_orders(w);
    if places == 0 {
        assert forall|i: int| 0 <= i < parts.len() implies #[trigger] parts[i] == 0 by {
            lemma_block_within(sizes, before, i);
        }
        lemma_sum_zero(parts);
    } else {
        let k = places - 1;
        lemma_fwd_occurrences_by_blocks(w, len, budget, k, pos, a);
        let prev = fwd_occurrences_parts(w, len, budget, k, pos, a);
        lemma_fwd_select(w, len, budget, k);
        let i = fwd_select(w, len, budget, k);
        lemma_block_part_step(sizes, before, i, k);
        let s = fwd_unrank(w, len, budget, k);
        let rest = fwd_unrank(w, (len - 1) as nat, budget - w[i], k - fwd_below(w, len, budget, i));
        assert(s =~= seq![i] + rest);
        crate::counting::lemma_fwd_unrank(
            w,
            (len - 1) as nat,
            budget - w[i],
            k - fwd_below(w, len, budget, i),
        );
        if pos > 0 {
            assert(s[pos] == rest[pos - 1]);
        }
        assert(parts[i] == prev[i] + indicator(s[pos] == a)) by {
            if pos == 0 {
                assert(indicator(i == a) * (block_part(sizes, before, i, k) + 1) == indicator(i == a)
                    * block_part(sizes, before, i, k) + indicator(i == a)) by (nonlinear_arith);
            }
        }
        assert(parts =~= prev.update(i, parts[i])) by {
            assert forall|j: int| 0 <= j < parts.len() && j != i implies parts[j] == prev[j] by {
                assert(block_part(sizes, before, j, k + 1) == block_part(sizes, before, j, k));
            }
        }
        lemma_sum_update(prev, i, parts[i]);
    }
}

/// Among all sequences of a length and budget, a symbol stands at every
/// position as often as there are sequences one shorter that leave room for
/// it.
pub proof fn lemma_fwd_occurrences_full(w: Seq<usize>, len: nat, budget: int, pos: int, a: int)
    requires
        0 <= pos < len,
        0 <= a < w.len(),
    ensures
        fwd_occurrences(w, len, budget, fwd_count(w, len, budget), pos, a) == fwd_count(
            w,
            (len - 1) as nat,
            budget - w[a],
        ),
    decreases len,
{
    let total = fwd_count(w, len, budget);
    let sizes = fwd_branches(w, len, budget);
    let before = symbol_before(w);
    lemma_fwd_count_nonneg(w, len, budget);
    lemma_fwd_count_unfold(w, len, budget);
    lemma_symbol_orders(w);
    lemma_fwd_occurrences_by_blocks(w, len, budget, total, pos, a);
    let parts = fwd_occurrences_parts(w, len, budget, total, pos, a);
    assert forall|i: int| 0 <= i < sizes.len() implies #[trigger] block_part(sizes, before, i, total)
        == sizes[i] by {
        lemma_block_within(sizes, before, i);
    }
    if pos == 0 {
        let zeros = Seq::new(w.len(), |i: int| 0int);
        lemma_sum_zero(zeros);
        assert(parts =~= zeros.update(a, sizes[a])) by {
            assert forall|i: int| 0 <= i < parts.len() implies parts[i] == zeros.update(a, sizes[a])[i] by {
                assert(block_part(sizes, before, i, total) == sizes[i]);
            }
        }
        lemma_sum_update(zeros, a, sizes[a]);
    } else {
        let shorter = fwd_branches(w, (len - 1) as nat, budget - w[a]);
        assert(parts =~= shorter) by {
            assert forall|i: int| 0 <= i < parts.len() implies parts[i] == shorter[i] by {
                assert(block_part(sizes, before, i, total) == sizes[i]);
                lemma_fwd_occurrences_full(w, (len - 1) as nat, budget - w[i], pos - 1, a);
            }
        }
        lemma_fwd_count_unfold(w, (len - 1) as nat, budget - w[a]);
    }
}

/// The occurrences among the sequences ahead of a sequence `s`, by the first
/// symbol of `s`: at the first position, all sequences that start with a
/// symbol scanned earlier hold that symbol, and those that start as `s` does
/// are as many as lie ahead of the rest of `s`; at a later position, the
/// sequences that start with a symbol scanned earlier are complete blocks,
/// and those that start as `s` does are counted among the sequences ahead of
/// the rest of `s`.
pub proof fn lemma_fwd_occurrences_ahead(
    w: Seq<usize>,
    len: nat,
    budget: int,
    s: Seq<int>,
    pos: int,
    a: int,
)
    requires
        len > 0,
        fwd_valid(w, len, budget, s),
        0 <= pos < len,
        0 <= a < w.len(),
    ensures
        pos == 0 ==> fwd_occurrences(w, len, budget, fwd_rank(w, budget, s), pos, a) == (if precedes(
            w,
            a,
            s[0],
        ) {
            fwd_branches(w, len, budget)[a]
        } else {
            0
        }) + (if s[0] == a {
            fwd_rank(w, budget - w[s[0]], s.drop_first())
        } else {
            0
        }),
        pos > 0 ==> fwd_occurrences(w, len, budget, fwd_rank(w, budget, s), pos, a) == fwd_below(
            w,
            (len - 1) as nat,
            budget - w[a],
            s[0],
        ) + fwd_occurrences(
            w,
            (len - 1) as nat,
            budget - w[s[0]],
            fwd_rank(w, budget - w[s[0]], s.drop_first()),
            pos - 1,
            a,
        ),
{
    let sizes = fwd_branches(w, len, budget);
    let before = symbol_before(w);
    let first = s[0];
    let rest = s.drop_first();
    let k = fwd_rank(w, budget, s);
    let r = fwd_rank(w, budget - w[first], rest);
    lemma_fwd_count_nonneg(w, len, budget);
    lemma_fwd_count_unfold(w, len, budget);
    lemma_symbol_orders(w);
    lemma_weight_first(w, s);
    lemma_fwd_rank_range(w, len, budget, s);
    lemma_fwd_rank_range(w, (len - 1) as nat, budget - w[first], rest);
    lemma_fwd_occurrences_by_blocks(w, len, budget, k, pos, a);
    lemma_block_part_at(sizes, before, first, k);
    let parts = fwd_occurrences_parts(w, len, budget, k, pos, a);
    if pos == 0 {
        let zeros = Seq::new(w.len(), |i: int| 0int);
        lemma_sum_zero(zeros);
        if first == a {
            assert(parts =~= zeros.update(a, r)) by {
                assert forall|i: int| 0 <= i < parts.len() implies parts[i] == zeros.update(a, r)[i] by {
                    if i != a {
                        assert(block_part(sizes, before, i, k) == if before(i, first) {
                            sizes[i]
                        } else {
                            0
                        });
                    }
                }
            }
            lemma_sum_update(zeros, a, r);
        } else {
            let at_a = if precedes(w, a, first) {
                sizes[a]
            } else {
                0
            };
            assert(parts =~= zeros.update(a, at_a)) by {
                assert forall|i: int| 0 <= i < parts.len() implies parts[i] == zeros.update(a, at_a)[i] by {
                    if i != first {
                        assert(block_part(sizes, before, i, k) == if before(i, first) {
                            sizes[i]
                        } else {
                            0
                        });
                    }
                }
            }
            lemma_sum_update(zeros, a, at_a);
        }
    } else {
        let shorter = fwd_branches(w, (len - 1) as nat, budget - w[a]);
        let ahead = masked(shorter, |j: int| before(j, first));
        let tail = fwd_occurrences(w, (len - 1) as nat, budget - w[first], r, pos - 1, a);
        assert(parts =~= ahead.update(first, tail)) by {
            assert forall|i: int| 0 <= i < parts.len() implies parts[i] == ahead.update(first, tail)[i] by {
                if i != first {
                    assert(block_part(sizes, before, i, k) == if before(i, first) {
                        sizes[i]
                    } else {
                        0
                    });
                    if before(i, first) {
                        lemma_fwd_occurrences_full(w, (len - 1) as nat, budget - w[i], pos - 1, a);
                    }
                }
            }
        }
        lemma_sum_update(ahead, first, tail);
    }
}

/// Among the sequences at the places `0 .. places` of those of length `len`
/// and weight `v` in the enumeration of the energy-ordered code, the number of
/// those with symbol `a` at position `pos`.
pub open spec fn rev_occurrences_within(
    w: Seq<usize>,
    len: nat,
    v: int,
    places: int,
    pos: int,
    a: int,
) -> int
    decreases places,
{
    if places <= 0 {
        0
    } else {
        rev_occurrences_within(w, len, v, places - 1, pos, a) + indicator(
            rev_unrank_within(w, len, v, places - 1)[pos] == a,
        )
    }
}

/// Among the sequences at the places `0 .. places` of the enumeration of the
/// energy-ordered code, the number of those with symbol `a` at position
/// `pos`.
pub open spec fn rev_occurrences(w: Seq<usize>, len: nat, places: int, pos: int, a: int) -> int
    decreases places,
{
    if places <= 0 {
        0
    } else {
        rev_occurrences(w, len, places - 1, pos, a) + indicator(
            rev_unrank(w, len, places - 1)[pos] == a,
        )
    }
}

/// What the sequences that end with symbol `i` add to
/// `rev_occurrences_within(w, len, v, places, pos, a)`.
pub open spec fn rev_occurrences_part(
    w: Seq<usize>,
    len: nat,
    v: int,
    places: int,
    pos: int,
    a: int,
    i: int,
) -> int {
    let part = block_part(rev_branches(w, len, v), symbol_after(w), i, places);
    if pos == len - 1 {
        indicator(i == a) * part
    } else {
        rev_occurrences_within(w, (len - 1) as nat, v - w[i], part, pos, a)
    }
}

/// For each symbol, what the sequences that end with it add.
pub open spec fn rev_occurrences_parts(
    w: Seq<usize>,
    len: nat,
    v: int,
    places: int,
    pos: int,
    a: int,
) -> Seq<int> {
    Seq::new(w.len(), |i: int| rev_occurrences_part(w, len, v, places, pos, a, i))
}

/// The occurrences among the first sequences of a weight are those among the
/// first sequences of each block of sequences with the same last symbol,
/// added up.
pub proof fn lemma_rev_occurrences_by_blocks(
    w: Seq<usize>,
    len: nat,
    v: int,
    places: int,
    pos: int,
    a: int,
)
    requires
        0 <= places <= rev_count(w, len, v),
        0 <= pos < len,
    ensures
        rev_occurrences_within(w, len, v, places, pos, a) == seq_sum(
            rev_occurrences_parts(w, len, v, places, pos, a),
        ),
    decreases places,
{
    let sizes = rev_branches(w, len, v);
    let before = symbol_after(w);
    let parts = rev_occurrences_parts(w, len, v, places, pos, a);
    lemma_rev_count_nonneg(w, len, v);
    lemma_rev_count_unfold(w, len, v);
    lemma_symbol_orders(w);
    if places == 0 {
        assert forall|i: int| 0 <= i < parts.len() implies #[trigger] parts[i] == 0 by {
            lemma_block_within(sizes, before, i);
        }
        lemma_sum_zero(parts);
    } else {
        let k = places - 1;
        lemma_rev_occurrences_by_blocks(w, len, v, k, pos, a);
        let prev = rev_occurrences_parts(w, len, v, k, pos, a);
        lemma_rev_select(w, len, v, k);
        let i = rev_select(w, len, v, k);
        lemma_block_part_step(sizes, before, i, k);
        let s = rev_unrank_within(w, len, v, k);
        let rest = rev_unrank_within(w, (len - 1) as nat, v - w[i], k - rev_below(w, len, v, i));
        assert(s =~= rest.push(i));
        lemma_rev_unrank_within(w, (len - 1) as nat, v - w[i], k - rev_below(w, len, v, i));
        if pos < len - 1 {
            assert(s[pos] == rest[pos]);
        }
        assert(parts[i] == prev[i] + indicator(s[pos] == a)) by {
            if pos == len - 1 {
                assert(indicator(i == a) * (block_part(sizes, before, i, k) + 1) == indicator(i == a)
                    * block_part(sizes, before, i, k) + indicator(i == a)) by (nonlinear_arith);
            }
        }
        assert(parts =~= prev.update(i, parts[i])) by {
            assert forall|j: int| 0 <= j < parts.len() && j != i implies parts[j] == prev[j] by {
                assert(block_part(sizes, before, j, k + 1) == block_part(sizes, before, j, k));
            }
        }
        lemma_sum_update(prev, i, parts[i]);
    }
}

/// Among all sequences of a length and weight, a symbol stands at every
/// position as often as there are sequences one shorter and lighter by its
/// weight.
pub proof fn lemma_rev_occurrences_full(w: Seq<usize>, len: nat, v: int, pos: int, a: int)
    requires
        0 <= pos < len,
        0 <= a < w.len(),
    ensures
        rev_occurrences_within(w, len, v, rev_count(w, len, v), pos, a) == rev_count(
            w,
            (len - 1) as nat,
            v - w[a],
        ),
    decreases len,
{
    let total = rev_count(w, len, v);
    let sizes = rev_branches(w, len, v);
    let before = symbol_after(w);
    lemma_rev_count_nonneg(w, len, v);
    lemma_rev_count_unfold(w, len, v);
    lemma_symbol_orders(w);
    lemma_rev_occurrences_by_blocks(w, len, v, total, pos, a);
    let parts = rev_occurrences_parts(w, len, v, total, pos, a);
    assert forall|i: int| 0 <= i < sizes.len() implies #[trigger] block_part(sizes, before, i, total)
        == sizes[i] by {
        lemma_block_within(sizes, before, i);
    }
    if pos == len - 1 {
        let zeros = Seq::new(w.len(), |i: int| 0int);
        lemma_sum_zero(zeros);
        assert(parts =~= zeros.update(a, sizes[a])) by {
            assert forall|i: int| 0 <= i < parts.len() implies parts[i] == zeros.update(a, sizes[a])[i] by {
                assert(block_part(sizes, before, i, total) == sizes[i]);
            }
        }
        lemma_sum_update(zeros, a, sizes[a]);
    } else {
        let shorter = rev_branches(w, (len - 1) as nat, v - w[a]);
        assert(parts =~= shorter) by {
            assert forall|i: int| 0 <= i < parts.len() implies parts[i] == shorter[i] by {
                assert(block_part(sizes, before, i, total) == sizes[i]);
                lemma_rev_occurrences_full(w, (len - 1) as nat, v - w[i], pos, a);
            }
        }
        lemma_rev_count_unfold(w, (len - 1) as nat, v - w[a]);
    }
}

/// The occurrences among the sequences ahead of a sequence `s` of the same
/// weight, by the last symbol of `s`: at the last position, all sequences
/// that end with a symbol scanned earlier hold that symbol, and those that
/// end as `s` does are as many as lie ahead of the rest of `s`; at an
/// earlier position, the sequences that end with a symbol scanned earlier
/// are complete blocks, and those that end as `s` does are counted among the
/// sequences ahead of the rest of `s`.
pub proof fn lemma_rev_occurrences_ahead(w: Seq<usize>, len: nat, v: int, s: Seq<int>, pos: int, a: int)
    requires
        len > 0,
        rev_valid(w, len, v, s),
        0 <= pos < len,
        0 <= a < w.len(),
    ensures
        pos == len - 1 ==> rev_occurrences_within(w, len, v, rev_rank_within(w, s), pos, a) == (if precedes(
            w,
            s.last(),
            a,
        ) {
            rev_branches(w, len, v)[a]
        } else {
            0
        }) + (if s.last() == a {
            rev_rank_within(w, s.drop_last())
        } else {
            0
        }),
        pos < len - 1 ==> rev_occurrences_within(w, len, v, rev_rank_within(w, s), pos, a) == rev_below(
            w,
            (len - 1) as nat,
            v - w[a],
            s.last(),
        ) + rev_occurrences_within(
            w,
            (len - 1) as nat,
            v - w[s.last()],
            rev_rank_within(w, s.drop_last()),
            pos,
            a,
        ),
{
    let sizes = rev_branches(w, len, v);
    let before = symbol_after(w);
    let last = s.last();
    let rest = s.drop_last();
    let k = rev_rank_within(w, s);
    let r = rev_rank_within(w, rest);
    lemma_rev_count_nonneg(w, len, v);
    lemma_rev_count_unfold(w, len, v);
    lemma_symbol_orders(w);
    lemma_rev_rank_within_range(w, len, v, s);
    lemma_rev_rank_within_range(w, (len - 1) as nat, v - w[last], rest);
    lemma_rev_occurrences_by_blocks(w, len, v, k, pos, a);
    lemma_block_part_at(sizes, before, last, k);
    let parts = rev_occurrences_parts(w, len, v, k, pos, a);
    if pos == len - 1 {
        let zeros = Seq::new(w.len(), |i: int| 0int);
        lemma_sum_zero(zeros);
        if last == a {
            assert(parts =~= zeros.update(a, r)) by {
                assert forall|i: int| 0 <= i < parts.len() implies parts[i] == zeros.update(a, r)[i] by {
                    if i != a {
                        assert(block_part(sizes, before, i, k) == if before(i, last) {
                            sizes[i]
                        } else {
                            0
                        });
                    }
                }
            }
            lemma_sum_update(zeros, a, r);
        } else {
            let at_a = if precedes(w, last, a) {
                sizes[a]
            } else {
                0
            };
            assert(parts =~= zeros.update(a, at_a)) by {
                assert forall|i: int| 0 <= i < parts.len() implies parts[i] == zeros.update(a, at_a)[i] by {
                    if i != last {
                        assert(block_part(sizes, before, i, k) == if before(i, last) {
                            sizes[i]
                        } else {
                            0
                        });
                    }
                }
            }
            lemma_sum_update(zeros, a, at_a);
        }
    } else {
        let shorter = rev_branches(w, (len - 1) as nat, v - w[a]);
        let ahead = masked(shorter, |j: int| before(j, last));
        let tail = rev_occurrences_within(w, (len - 1) as nat, v - w[last], r, pos, a);
        assert(parts =~= ahead.update(last, tail)) by {
            assert forall|i: int| 0 <= i < parts.len() implies parts[i] == ahead.update(last, tail)[i] by {
                if i != last {
                    assert(block_part(sizes, before, i, k) == if before(i, last) {
                        sizes[i]
                    } else {
                        0
                    });
                    if before(i, last) {
                        lemma_rev_occurrences_full(w, (len - 1) as nat, v - w[i], pos, a);
                    }
                }
            }
        }
        lemma_sum_update(ahead, last, tail);
    }
}

/// The occurrences among the sequences up to some place within the weight
/// `v`: all sequences of lower weight, in which a symbol stands as often as
/// there are sequences one shorter and lighter by its weight, and the
/// sequences of weight `v` up to that place.
pub proof fn lemma_rev_occurrences_by_level(w: Seq<usize>, len: nat, v: int, r: int, pos: int, a: int)
    requires
        v >= 0,
        0 <= r <= rev_count(w, len, v),
        0 <= pos < len,
        0 <= a < w.len(),
    ensures
        rev_occurrences(w, len, rev_total(w, len, v - 1) + r, pos, a) == rev_total(
            w,
            (len - 1) as nat,
            v - 1 - w[a],
        ) + rev_occurrences_within(w, len, v, r, pos, a),
    decreases v, r,
{
    lemma_rev_total_monotone(w, len, v - 1, v - 1);
    if r > 0 {
        let x = rev_total(w, len, v - 1) + r - 1;
        lemma_rev_occurrences_by_level(w, len, v, r - 1, pos, a);
        assert(in_level(w, len, v, x));
        lemma_rev_level_unique(w, len, v, rev_level(w, len, x), x);
    } else if v > 0 {
        lemma_rev_count_nonneg(w, len, v - 1);
        lemma_rev_occurrences_by_level(w, len, v - 1, rev_count(w, len, v - 1), pos, a);
        lemma_rev_occurrences_full(w, len, v - 1, pos, a);
    } else {
        assert(rev_total(w, len, -1) == 0);
    }
}

} // verus!
