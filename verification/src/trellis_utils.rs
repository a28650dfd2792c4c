//! Reverse trellises: tables that count, for each stage and weight level, the
//! symbol sequences that reach the node from the origin.

use crate::amplitudes::{all_odd, symbols_of};
use crate::bigint::{big_add, big_clone, big_from, big_lt, int_val, int_vals};
use crate::counting::{
    is_symbols, lemma_level_position, lemma_rev_count_reachable, lemma_rev_count_unfold,
    lemma_rev_total_gap, lemma_rev_total_monotone, lists, reachable, rev_branches, rev_count,
    rev_total, weight_of,
};
use crate::error::ShapingError;
use crate::sums::{lemma_sum_picked, lemma_sum_push, picked, seq_sum};
use crate::trellis::{
    is_predecessor_list, lemma_predecessor_symbols, max_weight, symbols_in, Trellis, TrellisView,
    valid_config, valid_expandable_config,
};
use crate::utils::{cumsum, prefix_sum};
use rug::Integer;
use vstd::prelude::*;

verus! {

/// Up to stage `upto`, every entry of the table is the number of symbol
/// sequences that lead from the origin to its node.
pub open spec fn holds_reverse_counts_upto(t: TrellisView, upto: int) -> bool {
    forall|stage: int, c: int|
        0 <= stage <= upto && stage <= t.n_max && 0 <= c < t.num_levels ==> #[trigger] t.values[stage][c]
            == rev_count(t.weights, stage as nat, t.levels[c] as int)
}

/// Every entry of the table is the number of symbol sequences that lead from
/// the origin to its node.
pub open spec fn holds_reverse_counts(t: TrellisView) -> bool {
    holds_reverse_counts_upto(t, t.n_max as int)
}

/// The trellis has columns for the fewest weight levels, from the lowest on,
/// that hold `target` sequences of full length between them, and for one
/// weight level at least.
pub open spec fn holds_just(t: TrellisView, target: int) -> bool {
    &&& t.num_levels >= 1
    &&& t.threshold == t.levels[t.num_levels - 1]
    &&& rev_total(t.weights, t.n_max as nat, t.threshold as int) >= target
    &&& t.num_levels >= 2 ==> rev_total(t.weights, t.n_max as nat, t.levels[t.num_levels - 2] as int)
        < target
}

/// The weight levels that a symbol sequence passes, from 0 before its first
/// symbol to its weight after the last.
pub open spec fn weight_path(w: Seq<usize>, s: Seq<int>) -> Seq<int> {
    Seq::new(s.len() + 1, |k: int| weight_of(w, s.take(k)))
}

/// The number of symbol sequences of length `stage` and weight `v` that,
/// before they reach that node, leave the node that the path `path` passes
/// at some stage for a weight level below the one that the path passes
/// next, each counted once for every stage at which it does so.
pub open spec fn lex_bounded_count(w: Seq<usize>, path: Seq<int>, stage: nat, v: int) -> int
    decreases stage, 1nat,
{
    if stage == 0 || v < 0 {
        0
    } else {
        seq_sum(lex_bounded_branches(w, path, stage, v))
    }
}

/// For each symbol, what the sequences that end with it add to
/// `lex_bounded_count(w, path, stage, v)`.
pub open spec fn lex_bounded_branches(w: Seq<usize>, path: Seq<int>, stage: nat, v: int) -> Seq<int>
    decreases stage, 0nat,
{
    Seq::new(
        w.len(),
        |j: int|
            if stage > 0 && v - w[j] >= 0 && reachable(w, v - w[j]) {
                let leaves_below = v - w[j] == path[stage - 1] && v < path[stage as int];
                lex_bounded_count(w, path, (stage - 1) as nat, v - w[j]) + if leaves_below {
                    1int
                } else {
                    0int
                }
            } else {
                0
            },
    )
}

/// Up to stage `upto`, every entry of the table is the count of
/// `lex_bounded_count` for its node.
pub open spec fn holds_lex_bounded_counts(t: TrellisView, path: Seq<int>, upto: int) -> bool {
    forall|stage: int, c: int|
        0 <= stage <= upto && stage <= t.n_max && 0 <= c < t.num_levels ==> #[trigger] t.values[stage][c]
            == lex_bounded_count(t.weights, path, stage as nat, t.levels[c] as int)
}

/// Builds an expandable reverse trellis one weight level at a time, lowest
/// first, and stops as soon as the sequences of full length at the weight
/// levels built are at least `num_sequences`.
pub fn reverse_trellis_upto_num_sequences(
    num_sequences: Integer,
    n_max: usize,
    weights: &[usize],
) -> (r: Result<Trellis, ShapingError>)
    ensures
        r is Ok <==> valid_expandable_config(weights@, n_max) && int_val(num_sequences) <= rev_total(
            weights@,
            n_max as nat,
            n_max * max_weight(weights@),
        ),
        r matches Err(e) ==> e == (if valid_expandable_config(weights@, n_max) {
            ShapingError::TooManySequences
        } else {
            ShapingError::InvalidConfiguration
        }),
        r matches Ok(t) ==> t.wf() && t@.n_max == n_max && t@.weights == weights@
            && crate::counting::lists_levels(weights@, n_max * max_weight(weights@), t@.levels)
            && holds_reverse_counts(t@) && holds_just(t@, int_val(num_sequences)),
{
    let mut reverse_trellis = match Trellis::new_expandable(n_max, weights) {
        Ok(trellis) => trellis,
        Err(e) => {
            return Err(e);
        },
    };
    let weight_levels = reverse_trellis.get_weight_levels();
    let ghost shape = reverse_trellis@;
    let ghost w = shape.weights;
    let ghost cap = n_max * max_weight(w);
    let ghost target = int_val(num_sequences);

    // calculate values for higher weight levels
    let mut current_num_sequences = big_from(0);
    let mut c: usize = 0;
    while c < weight_levels.len()
        invariant
            c <= weight_levels@.len(),
            weight_levels@ == shape.levels,
            w == weights@,
            w == shape.weights,
            n_max == shape.n_max,
            cap == n_max * max_weight(w),
            target == int_val(num_sequences),
            valid_expandable_config(w, n_max),
            crate::counting::lists_levels(w, cap, shape.levels),
            reverse_trellis.wf(),
            reverse_trellis@.n_max == n_max,
            reverse_trellis@.weights == w,
            reverse_trellis@.levels == shape.levels,
            reverse_trellis@.num_levels == c,
            holds_reverse_counts(reverse_trellis@),
            c == 0 ==> int_val(current_num_sequences) == 0,
            c > 0 ==> int_val(current_num_sequences) == rev_total(
                w,
                n_max as nat,
                shape.levels[c - 1] as int,
            ) && int_val(current_num_sequences) < target,
        decreases weight_levels@.len() - c,
    {
        let wl: usize = weight_levels[c];
        let predecessors = reverse_trellis.get_predecessors(wl);
        let ghost syms = symbols_in(predecessors@);
        let ghost before = reverse_trellis@;
        let mut expand_values: Vec<Integer> = Vec::new();
        let mut stage: usize = 0;
        proof {
            lemma_predecessor_symbols(w, shape.levels, wl as int, predecessors@);
        }
        while stage < n_max + 1
            invariant
                stage <= n_max + 1,
                c < shape.levels.len(),
                wl == shape.levels[c as int],
                w == shape.weights,
                n_max == shape.n_max,
                reverse_trellis.wf(),
                reverse_trellis@ == before,
                before.n_max == n_max,
                before.weights == w,
                before.levels == shape.levels,
                before.num_levels == c,
                holds_reverse_counts(before),
                is_predecessor_list(w, shape.levels, wl as int, predecessors@),
                syms == symbols_in(predecessors@),
                expand_values@.len() == stage,
                forall|s: int|
                    0 <= s < stage ==> int_val(#[trigger] expand_values@[s]) == rev_count(
                        w,
                        s as nat,
                        wl as int,
                    ),
            decreases n_max + 1 - stage,
        {
            let node_value: Integer = if wl == 0 && stage == 0 {
                // node at (0, 0) has value 1
                big_from(1)
            } else if stage == 0 {
                // No predecessors in first stage
                big_from(0)
            } else {
                // reverse trellis node value equals sum of its predecessors
                let ghost branches = rev_branches(w, stage as nat, wl as int);
                let mut total = big_from(0);
                let mut q: usize = 0;
                proof {
                    assert(picked(branches, syms.take(0)) =~= Seq::<int>::empty());
                }
                while q < predecessors.len()
                    invariant
                        q <= predecessors@.len(),
                        1 <= stage <= n_max,
                        c < shape.levels.len(),
                        wl == shape.levels[c as int],
                        w == shape.weights,
                        n_max == shape.n_max,
                        reverse_trellis.wf(),
                        reverse_trellis@ == before,
                        before.n_max == n_max,
                        before.weights == w,
                        before.levels == shape.levels,
                        before.num_levels == c,
                        holds_reverse_counts(before),
                        is_predecessor_list(w, shape.levels, wl as int, predecessors@),
                        syms == symbols_in(predecessors@),
                        expand_values@.len() == stage,
                        forall|s: int|
                            0 <= s < stage ==> int_val(#[trigger] expand_values@[s]) == rev_count(
                                w,
                                s as nat,
                                wl as int,
                            ),
                        branches == rev_branches(w, stage as nat, wl as int),
                        int_val(total) == seq_sum(picked(branches, syms.take(q as int))),
                    decreases predecessors@.len() - q,
                {
                    let (weight_index, predecessor_wl) = predecessors[q];
                    proof {
                        assert(predecessors@[q as int].0 == weight_index);
                        assert(syms[q as int] == weight_index);
                        assert(picked(branches, syms.take(q + 1)) =~= picked(
                            branches,
                            syms.take(q as int),
                        ).push(branches[weight_index as int]));
                        lemma_sum_push(
                            picked(branches, syms.take(q as int)),
                            branches[weight_index as int],
                        );
                    }
                    let term: Integer = if predecessor_wl == wl {
                        // value for predecessor not yet stored in the reverse trellis
                        big_clone(&expand_values[stage - 1])
                    } else {
                        proof {
                            let p = choose|p: int|
                                0 <= p < shape.levels.len() && shape.levels[p] == predecessor_wl;
                            lemma_level_position(shape.levels, p, c as int);
                            assert(before.has_level(predecessor_wl as int));
                            before.lemma_level_index(predecessor_wl as int);
                        }
                        reverse_trellis.get(stage - 1, predecessor_wl)
                    };
                    total = big_add(&total, &term);
                    q += 1;
                }
                proof {
                    assert(syms.take(q as int) =~= syms);
                    lemma_predecessor_symbols(w, shape.levels, wl as int, predecessors@);
                    assert forall|j: int|
                        0 <= j < branches.len() && !syms.contains(j) implies #[trigger] branches[j]
                        == 0 by {
                        if branches[j] != 0 {
                            lemma_rev_count_reachable(w, (stage - 1) as nat, wl - w[j]);
                            crate::counting::lemma_reachable_nonneg(w, wl - w[j]);
                            lemma_level_position(shape.levels, c as int, shape.levels.len() - 1);
                            assert(lists(shape.levels, wl - w[j]));
                        }
                    }
                    lemma_sum_picked(branches, syms);
                    lemma_rev_count_unfold(w, stage as nat, wl as int);
                }
                total
            };
            expand_values.push(node_value);
            stage += 1;
        }
        let ghost column = int_vals(expand_values@);
        match reverse_trellis.expand_with(&mut expand_values) {
            Ok(()) => {},
            Err(e) => {
                return Err(e);
            },
        }
        proof {
            let after = reverse_trellis@;
            assert(after.levels[c as int] == wl);
            assert(after.has_level(wl as int));
            after.lemma_level_index(wl as int);
            lemma_level_position(after.levels, c as int, after.level_index(wl as int));
            assert forall|s: int, d: int|
                0 <= s <= after.n_max && 0 <= d < after.num_levels implies #[trigger] after.values[s][d]
                == rev_count(after.weights, s as nat, after.levels[d] as int) by {
                if d < c {
                    assert(after.values[s][d] == before.values[s][d]);
                } else {
                    assert(after.values[s][d] == column[s]);
                }
            }
            // The total up to this weight level.
            if c > 0 {
                lemma_level_position(shape.levels, c - 1, c as int);
                assert forall|v: int| shape.levels[c - 1] < v <= wl - 1 implies !#[trigger] reachable(
                    w,
                    v,
                ) by {
                    if reachable(w, v) {
                        lemma_level_position(shape.levels, c as int, shape.levels.len() - 1);
                        assert(lists(shape.levels, v));
                        let p = choose|p: int| 0 <= p < shape.levels.len() && shape.levels[p] == v;
                        lemma_level_position(shape.levels, p, c as int);
                        lemma_level_position(shape.levels, p, c - 1);
                    }
                }
                lemma_rev_total_gap(w, n_max as nat, shape.levels[c - 1] as int, wl - 1);
            } else {
                assert(wl == 0);
                assert(rev_total(w, n_max as nat, -1) == 0);
            }
            assert(rev_total(w, n_max as nat, wl as int) == rev_total(w, n_max as nat, wl - 1)
                + rev_count(w, n_max as nat, wl as int));
        }
        let reached = reverse_trellis.get(n_max, wl);
        current_num_sequences = big_add(&current_num_sequences, &reached);
        if !big_lt(&current_num_sequences, &num_sequences) {
            proof {
                lemma_level_position(shape.levels, c as int, shape.levels.len() - 1);
                lemma_rev_total_monotone(w, n_max as nat, wl as int, cap);
            }
            return Ok(reverse_trellis);
        }
        c += 1;
    }
    proof {
        let last = shape.levels.last() as int;
        assert forall|v: int| last < v <= cap implies !#[trigger] reachable(w, v) by {
            if reachable(w, v) {
                assert(lists(shape.levels, v));
                let p = choose|p: int| 0 <= p < shape.levels.len() && shape.levels[p] == v;
                lemma_level_position(shape.levels, p, shape.levels.len() - 1);
            }
        }
        lemma_rev_total_gap(w, n_max as nat, last, cap);
    }
    Err(ShapingError::TooManySequences)
}

/// The running totals of the weights of the symbols of a sequence are the
/// weights of its prefixes.
pub proof fn lemma_prefix_sum_is_weight(w: Seq<usize>, s: Seq<int>, ws: Seq<usize>, k: int)
    requires
        ws.len() == s.len(),
        forall|i: int| 0 <= i < s.len() ==> #[trigger] ws[i] == w[s[i]],
        0 <= k <= s.len(),
    ensures
        prefix_sum(ws, k) == weight_of(w, s.take(k)),
    decreases k,
{
    if k > 0 {
        lemma_prefix_sum_is_weight(w, s, ws, k - 1);
        assert(s.take(k).drop_last() =~= s.take(k - 1));
    }
}

/// The weight levels that a sequence of amplitudes passes, from 0 before its
/// first symbol to its weight after the last.
pub fn amplitude_weight_path(weights: &[usize], amplitudes: &[usize]) -> (path: Vec<usize>)
    requires
        all_odd(amplitudes@),
        is_symbols(weights@, symbols_of(amplitudes@)),
        weight_of(weights@, symbols_of(amplitudes@)) <= usize::MAX,
    ensures
        path@.len() == amplitudes@.len() + 1,
        forall|k: int|
            0 <= k <= amplitudes@.len() ==> #[trigger] path@[k] == weight_of(
                weights@,
                symbols_of(amplitudes@).take(k),
            ),
{
    let ghost s = symbols_of(amplitudes@);
    let mut symbol_weights: Vec<usize> = Vec::new();
    let mut k: usize = 0;
    while k < amplitudes.len()
        invariant
            k <= amplitudes@.len(),
            s == symbols_of(amplitudes@),
            all_odd(amplitudes@),
            is_symbols(weights@, s),
            symbol_weights@.len() == k,
            forall|i: int| 0 <= i < k ==> #[trigger] symbol_weights@[i] == weights@[s[i]],
        decreases amplitudes@.len() - k,
    {
        proof {
            assert(amplitudes@[k as int] % 2 == 1);
            assert(0 <= s[k as int] < weights@.len());
        }
        symbol_weights.push(weights[(amplitudes[k] - 1) / 2]);
        k += 1;
    }
    proof {
        lemma_prefix_sum_is_weight(weights@, s, symbol_weights@, s.len() as int);
        assert(s.take(s.len() as int) =~= s);
    }
    let path = cumsum(symbol_weights.as_slice());
    proof {
        assert forall|k: int| 0 <= k <= amplitudes@.len() implies #[trigger] path@[k] == weight_of(
            weights@,
            s.take(k),
        ) by {
            lemma_prefix_sum_is_weight(weights@, s, symbol_weights@, k);
        }
    }
    path
}

/// Builds a trellis that holds, for each node, the count of
/// `lex_bounded_count` along the path of `first_abandoned_sequence`.
pub fn reverse_trellis_lexicographically_bounded(
    threshold: usize,
    n_max: usize,
    weights: &[usize],
    first_abandoned_sequence: &[usize],
) -> (r: Result<Trellis, ShapingError>)
    requires
        first_abandoned_sequence@.len() == n_max,
        all_odd(first_abandoned_sequence@),
        is_symbols(weights@, symbols_of(first_abandoned_sequence@)),
        weight_of(weights@, symbols_of(first_abandoned_sequence@)) <= usize::MAX,
    ensures
        r is Ok <==> valid_config(weights@, threshold, n_max),
        r matches Err(e) ==> e == ShapingError::InvalidConfiguration,
        r matches Ok(t) ==> t.wf() && t@.threshold == threshold && t@.n_max == n_max && t@.weights
            == weights@ && t@.num_levels == t@.levels.len() && holds_lex_bounded_counts(
            t@,
            weight_path(weights@, symbols_of(first_abandoned_sequence@)),
            n_max as int,
        ),
{
    let mut reverse_trellis = match Trellis::new(threshold, n_max, weights) {
        Ok(trellis) => trellis,
        Err(e) => {
            return Err(e);
        },
    };
    let abandoned_seq_wls = amplitude_weight_path(weights, first_abandoned_sequence);
    let weight_levels = reverse_trellis.get_weight_levels();
    let ghost shape = reverse_trellis@;
    let ghost w = shape.weights;
    let ghost path = weight_path(w, symbols_of(first_abandoned_sequence@));
    let mut n: usize = 0;
    while n < n_max
        invariant
            n <= n_max,
            n_max == shape.n_max,
            w == weights@,
            w == shape.weights,
            weight_levels@ == shape.levels,
            shape.num_levels == shape.levels.len(),
            path == weight_path(w, symbols_of(first_abandoned_sequence@)),
            first_abandoned_sequence@.len() == n_max,
            abandoned_seq_wls@.len() == n_max + 1,
            forall|k: int| 0 <= k <= n_max ==> #[trigger] abandoned_seq_wls@[k] == path[k],
            reverse_trellis.wf(),
            reverse_trellis@.same_shape(shape),
            holds_lex_bounded_counts(reverse_trellis@, path, n as int),
        decreases n_max - n,
    {
        let next_stage: usize = n + 1;
        let mut c: usize = 0;
        while c < weight_levels.len()
            invariant
                c <= weight_levels@.len(),
                n < n_max,
                next_stage == n + 1,
                n_max == shape.n_max,
                w == shape.weights,
                weight_levels@ == shape.levels,
                shape.num_levels == shape.levels.len(),
                abandoned_seq_wls@.len() == n_max + 1,
                forall|k: int| 0 <= k <= n_max ==> #[trigger] abandoned_seq_wls@[k] == path[k],
                reverse_trellis.wf(),
                reverse_trellis@.same_shape(shape),
                holds_lex_bounded_counts(reverse_trellis@, path, n as int),
                forall|d: int|
                    0 <= d < c ==> #[trigger] reverse_trellis@.values[next_stage as int][d]
                        == lex_bounded_count(w, path, next_stage as nat, shape.levels[d] as int),
            decreases weight_levels@.len() - c,
        {
            let wl: usize = weight_levels[c];
            let predecessors = reverse_trellis.get_predecessors(wl);
            let ghost syms = symbols_in(predecessors@);
            let ghost before = reverse_trellis@;
            let ghost branches = lex_bounded_branches(w, path, next_stage as nat, wl as int);
            let mut total = big_from(0);
            let mut q: usize = 0;
            proof {
                assert(picked(branches, syms.take(0)) =~= Seq::<int>::empty());
                before.lemma_level_index(wl as int);
                lemma_level_position(shape.levels, c as int, before.level_index(wl as int));
            }
            while q < predecessors.len()
                invariant
                    q <= predecessors@.len(),
                    c < shape.levels.len(),
                    wl == shape.levels[c as int],
                    n < n_max,
                    next_stage == n + 1,
                    n_max == shape.n_max,
                    w == shape.weights,
                    shape.num_levels == shape.levels.len(),
                    abandoned_seq_wls@.len() == n_max + 1,
                    forall|k: int| 0 <= k <= n_max ==> #[trigger] abandoned_seq_wls@[k] == path[k],
                    reverse_trellis.wf(),
                    reverse_trellis@ == before,
                    before.same_shape(shape),
                    holds_lex_bounded_counts(before, path, n as int),
                    is_predecessor_list(w, shape.levels, wl as int, predecessors@),
                    syms == symbols_in(predecessors@),
                    branches == lex_bounded_branches(w, path, next_stage as nat, wl as int),
                    int_val(total) == seq_sum(picked(branches, syms.take(q as int))),
                decreases predecessors@.len() - q,
            {
                let (weight_index, predecessor_wl) = predecessors[q];
                proof {
                    assert(predecessors@[q as int].0 == weight_index);
                    assert(syms[q as int] == weight_index);
                    assert(picked(branches, syms.take(q + 1)) =~= picked(
                        branches,
                        syms.take(q as int),
                    ).push(branches[weight_index as int]));
                    lemma_sum_push(picked(branches, syms.take(q as int)), branches[weight_index as int]);
                    assert(before.has_level(predecessor_wl as int));
                    before.lemma_level_index(predecessor_wl as int);
                    assert(abandoned_seq_wls@[n as int] == path[n as int]);
                    assert(abandoned_seq_wls@[next_stage as int] == path[next_stage as int]);
                }
                let reaching = reverse_trellis.get(n, predecessor_wl);
                let term: Integer = if predecessor_wl == abandoned_seq_wls[n] && wl
                    < abandoned_seq_wls[next_stage] {
                    big_add(&reaching, &big_from(1))
                } else {
                    reaching
                };
                total = big_add(&total, &term);
                q += 1;
            }
            proof {
                assert(syms.take(q as int) =~= syms);
                lemma_predecessor_symbols(w, shape.levels, wl as int, predecessors@);
                assert forall|j: int|
                    0 <= j < branches.len() && !syms.contains(j) implies #[trigger] branches[j] == 0 by {
                    if wl - w[j] >= 0 && reachable(w, wl - w[j]) {
                        lemma_level_position(shape.levels, c as int, shape.levels.len() - 1);
                        assert(lists(shape.levels, wl - w[j]));
                    }
                }
                lemma_sum_picked(branches, syms);
            }
            reverse_trellis.set(next_stage, wl, total);
            proof {
                let after = reverse_trellis@;
                assert forall|stage: int, d: int|
                    0 <= stage <= n && stage <= after.n_max && 0 <= d < after.num_levels implies #[trigger] after.values[stage][d]
                    == lex_bounded_count(after.weights, path, stage as nat, after.levels[d] as int) by {
                    assert(after.values[stage][d] == before.values[stage][d]);
                }
                assert forall|d: int| 0 <= d < c + 1 implies #[trigger] after.values[next_stage as int][d]
                    == lex_bounded_count(w, path, next_stage as nat, shape.levels[d] as int) by {
                    if d < c {
                        assert(after.values[next_stage as int][d] == before.values[next_stage as int][d]);
                    }
                }
            }
            c += 1;
        }
        n += 1;
    }
    Ok(reverse_trellis)
}

/// The rows in which a trellis is printed: one for each weight level with a
/// column, the highest first, with the weight level and the entries of its
/// column from the first stage to the last.
pub fn trellis_rows(trellis: &Trellis) -> (rows: Vec<(usize, Vec<Integer>)>)
    requires
        trellis.wf(),
    ensures
        rows@.len() == trellis@.num_levels,
        forall|k: int|
            0 <= k < rows@.len() ==> (#[trigger] rows@[k]).0 == trellis@.levels[trellis@.num_levels - 1
                - k] && rows@[k].1@.len() == trellis@.n_max + 1,
        forall|k: int, stage: int|
            0 <= k < rows@.len() && 0 <= stage <= trellis@.n_max ==> int_val(
                #[trigger] rows@[k].1@[stage],
            ) == trellis@.values[stage][trellis@.num_levels - 1 - k],
{
    let weight_levels = trellis.get_weight_levels();
    let columns = trellis.get_num_weight_levels();
    let n_max = trellis.n_max();
    let ghost view = trellis@;
    let mut rows: Vec<(usize, Vec<Integer>)> = Vec::new();
    let mut c: usize = columns;
    while c > 0
        invariant
            c <= columns,
            columns == view.num_levels,
            n_max == view.n_max,
            weight_levels@ == view.levels,
            trellis.wf(),
            view == trellis@,
            rows@.len() == columns - c,
            forall|k: int|
                0 <= k < rows@.len() ==> (#[trigger] rows@[k]).0 == view.levels[columns - 1 - k]
                    && rows@[k].1@.len() == n_max + 1,
            forall|k: int, stage: int|
                0 <= k < rows@.len() && 0 <= stage <= n_max ==> int_val(#[trigger] rows@[k].1@[stage])
                    == view.values[stage][columns - 1 - k],
        decreases c,
    {
        c -= 1;
        let wl: usize = weight_levels[c];
        let mut entries: Vec<Integer> = Vec::new();
        let mut stage: usize = 0;
        proof {
            assert(view.has_level(wl as int));
            view.lemma_level_index(wl as int);
            lemma_level_position(view.levels, c as int, view.level_index(wl as int));
        }
        while stage < n_max + 1
            invariant
                stage <= n_max + 1,
                n_max == view.n_max,
                trellis.wf(),
                view == trellis@,
                view.has_level(wl as int),
                view.level_index(wl as int) == c,
                entries@.len() == stage,
                forall|s: int|
                    0 <= s < stage ==> int_val(#[trigger] entries@[s]) == view.values[s][c as int],
            decreases n_max + 1 - stage,
        {
            entries.push(trellis.get(stage, wl));
            stage += 1;
        }
        let ghost before = rows@;
        rows.push((wl, entries));
        proof {
            assert forall|k: int, stage: int|
                0 <= k < rows@.len() && 0 <= stage <= n_max implies int_val(
                #[trigger] rows@[k].1@[stage],
            ) == view.values[stage][columns - 1 - k] by {
                if k < before.len() {
                    assert(rows@[k] == before[k]);
                }
            }
            assert forall|k: int| 0 <= k < rows@.len() implies (#[trigger] rows@[k]).0
                == view.levels[columns - 1 - k] && rows@[k].1@.len() == n_max + 1 by {
                if k < before.len() {
                    assert(rows@[k] == before[k]);
                }
            }
        }
    }
    rows
}

} // verus!
