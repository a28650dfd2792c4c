//! Reverse trellis shaping: the code of the lowest-weight symbol sequences,
//! enumerated by rising weight and, within one weight, from the last stage
//! back in the order of the predecessors.

use crate::amplitudes::{all_odd, is_amplitudes_of, symbol_of, symbols_of};
use crate::bigint::{big_add, big_bits, big_from, big_lt, big_pow, big_sub, int_val};
use crate::counting::{
    fwd_valid, in_level, is_symbols, lemma_count_conservation, lemma_fwd_count_bound,
    lemma_level_position, lemma_reachable_nonneg, lemma_rev_count_reachable, lemma_rev_count_unfold,
    lemma_rev_level_unique, lemma_rev_select_is, lemma_rev_total_monotone, lemma_symbol_orders,
    lemma_total_below_level, lemma_weight_prefix, lists, reachable, rev_below, rev_branches,
    rev_count, rev_level, rev_rank, rev_rank_within, rev_total, rev_unrank, rev_unrank_within,
    symbol_after, weight_of,
};
use crate::error::ShapingError;
use crate::sums::{
    in_block, lemma_block_start_of_listed, lemma_sum_picked, lemma_sum_push, picked, seq_sum,
};
use crate::trellis::{
    is_predecessor_list, lemma_predecessor_symbols, max_weight, symbols_in, Trellis,
    valid_expandable_config,
};
use crate::trellis_utils::{
    amplitude_weight_path, holds_just, holds_reverse_counts, reverse_trellis_upto_num_sequences,
};
use rug::Integer;
use vstd::arithmetic::power2::{lemma_pow2, lemma_pow2_strictly_increases, pow2};
use vstd::prelude::*;

verus! {

/// Reverse trellis shaping (RTS)
///
/// The code holds the sequences of the lowest weight: all sequences up to
/// the lowest weight level that gives as many sequences as were asked for.
/// It enumerates them by rising weight, so that the sequences that are used
/// are the lightest ones.
pub struct RTS {
    pub trellis: Trellis,
}

impl RTS {
    /// The trellis has a column, its threshold is the weight level of its
    /// last column, and it holds the reverse path counts.
    pub open spec fn wf(&self) -> bool {
        &&& self.trellis.wf()
        &&& self.trellis@.num_levels >= 1
        &&& self.trellis@.threshold == self.trellis@.levels[self.trellis@.num_levels - 1]
        &&& holds_reverse_counts(self.trellis@)
    }

    /// The number of sequences of the code.
    pub open spec fn spec_num_sequences(&self) -> int {
        rev_total(self.trellis@.weights, self.trellis@.n_max as nat, self.trellis@.threshold as int)
    }

    /// `amplitudes` is a sequence of the code: one odd amplitude of a symbol
    /// of the code for each stage, of a weight within the threshold.
    pub open spec fn is_code_sequence(&self, amplitudes: Seq<usize>) -> bool {
        &&& all_odd(amplitudes)
        &&& fwd_valid(
            self.trellis@.weights,
            self.trellis@.n_max as nat,
            self.trellis@.threshold as int,
            symbols_of(amplitudes),
        )
    }

    /// Returns an [RTS] instance which encodes at least `num_bits` bits
    ///
    /// The smallest possible trellis that encodes `num_bits` bits is used, in
    /// some cases this trellis is capable of encoding more than `num_bits` bits.
    pub fn new(num_bits: usize, n_max: usize, weights: &[usize]) -> (r: Result<RTS, ShapingError>)
        ensures
            r is Ok <==> valid_expandable_config(weights@, n_max) && pow2(num_bits as nat) <= rev_total(
                weights@,
                n_max as nat,
                n_max * max_weight(weights@),
            ),
            r matches Err(e) ==> e == (if valid_expandable_config(weights@, n_max) {
                ShapingError::TooManySequences
            } else {
                ShapingError::InvalidConfiguration
            }),
            r matches Ok(code) ==> code.wf() && code.trellis@.n_max == n_max && code.trellis@.weights
                == weights@ && crate::counting::lists_levels(
                weights@,
                n_max * max_weight(weights@),
                code.trellis@.levels,
            ) && holds_just(code.trellis@, pow2(num_bits as nat) as int),
    {
        if num_bits > 0xffff_ffff {
            // More bits than any trellis of this library holds sequences for.
            return match Trellis::new_expandable(n_max, weights) {
                Ok(_) => {
                    proof {
                        let cap = n_max * max_weight(weights@);
                        lemma_count_conservation(weights@, n_max as nat, cap);
                        lemma_fwd_count_bound(weights@, n_max as nat, cap);
                        lemma_pow2_strictly_increases((64 * n_max) as nat, num_bits as nat);
                    }
                    Err(ShapingError::TooManySequences)
                },
                Err(e) => Err(e),
            };
        }
        let exponent: u32 = num_bits as u32;
        proof {
            lemma_pow2(num_bits as nat);
        }
        match reverse_trellis_upto_num_sequences(big_pow(2, exponent), n_max, weights) {
            Ok(trellis) => Ok(RTS { trellis }),
            Err(e) => Err(e),
        }
    }

    /// Returns the amplitude value for a given weight index
    fn weight_idx_to_amplitude(weight_index: usize) -> (amplitude: usize)
        requires
            weight_index <= usize::MAX / 2,
        ensures
            amplitude == 2 * weight_index + 1,
            symbol_of(amplitude) == weight_index,
    {
        weight_index * 2 + 1
    }

    /// Returns the weight index for a given amplitude value
    fn amplitude_to_weight_idx(amplitude: usize) -> (weight_index: usize)
        requires
            amplitude >= 1,
        ensures
            weight_index == symbol_of(amplitude),
    {
        (amplitude - 1) / 2
    }

    /// Replaces the amplitudes in a sequence by their weight indexes
    fn amplitude_seq_to_weight_idx_seq(amplitude_sequence: &[usize]) -> (symbols: Vec<usize>)
        requires
            forall|k: int| 0 <= k < amplitude_sequence@.len() ==> #[trigger] amplitude_sequence@[k] >= 1,
        ensures
            symbols@.len() == amplitude_sequence@.len(),
            forall|k: int|
                0 <= k < symbols@.len() ==> #[trigger] symbols@[k] == symbol_of(amplitude_sequence@[k]),
    {
        let mut symbols: Vec<usize> = Vec::new();
        let mut k: usize = 0;
        while k < amplitude_sequence.len()
            invariant
                k <= amplitude_sequence@.len(),
                symbols@.len() == k,
                forall|j: int|
                    0 <= j < amplitude_sequence@.len() ==> #[trigger] amplitude_sequence@[j] >= 1,
                forall|j: int|
                    0 <= j < k ==> #[trigger] symbols@[j] == symbol_of(amplitude_sequence@[j]),
            decreases amplitude_sequence@.len() - k,
        {
            symbols.push(RTS::amplitude_to_weight_idx(amplitude_sequence[k]));
            k += 1;
        }
        symbols
    }

    /// The sum of the first `columns` entries of the last row of the table:
    /// the number of sequences of full length at the lowest `columns` weight
    /// levels.
    fn sum_of_last_stage(&self, columns: usize) -> (total: Integer)
        requires
            self.wf(),
            columns <= self.trellis@.num_levels,
        ensures
            columns == 0 ==> int_val(total) == 0,
            columns > 0 ==> int_val(total) == rev_total(
                self.trellis@.weights,
                self.trellis@.n_max as nat,
                self.trellis@.levels[columns - 1] as int,
            ),
    {
        let n_max = self.trellis.n_max();
        let row = self.trellis.get_stage(n_max);
        let ghost view = self.trellis@;
        let mut total = big_from(0);
        let mut c: usize = 0;
        while c < columns
            invariant
                c <= columns,
                columns <= view.num_levels,
                self.wf(),
                view == self.trellis@,
                n_max == view.n_max,
                row@.len() == view.num_levels,
                forall|d: int|
                    0 <= d < row@.len() ==> int_val(#[trigger] row@[d]) == view.values[n_max as int][d],
                c == 0 ==> int_val(total) == 0,
                c > 0 ==> int_val(total) == rev_total(
                    view.weights,
                    n_max as nat,
                    view.levels[c - 1] as int,
                ),
            decreases columns - c,
        {
            proof {
                lemma_total_below_level(view.weights, n_max as nat, view.levels, c as int);
                assert(view.values[n_max as int][c as int] == rev_count(
                    view.weights,
                    n_max as nat,
                    view.levels[c as int] as int,
                ));
            }
            total = big_add(&total, &row[c]);
            c += 1;
        }
        total
    }

    /// Returns the number of sequences that can be encoded / decoded
    pub fn num_sequences(&self) -> (count: Integer)
        requires
            self.wf(),
        ensures
            int_val(count) == self.spec_num_sequences(),
            int_val(count) >= 1,
    {
        let columns = self.trellis.get_num_weight_levels();
        proof {
            let view = self.trellis@;
            lemma_rev_total_monotone(view.weights, view.n_max as nat, 0, view.threshold as int);
            crate::counting::lemma_fwd_count_positive(view.weights, view.n_max as nat, 0);
            lemma_count_conservation(view.weights, view.n_max as nat, 0);
        }
        self.sum_of_last_stage(columns)
    }

    /// Returns the number of bits that can be encoded / decoded: the largest
    /// number of which two to its power is at most the number of sequences.
    pub fn num_bits(&self) -> (bits: u32)
        requires
            self.wf(),
        ensures
            pow2(bits as nat) <= self.spec_num_sequences() < pow2((bits + 1) as nat),
    {
        let count = self.num_sequences();
        proof {
            let view = self.trellis@;
            lemma_count_conservation(view.weights, view.n_max as nat, view.threshold as int);
            lemma_fwd_count_bound(view.weights, view.n_max as nat, view.threshold as int);
            lemma_pow2_strictly_increases((64 * view.n_max) as nat, u32::MAX as nat);
        }
        big_bits(&count) - 1
    }

    /// Returns the weights used by the internal trellis
    pub fn get_weights(&self) -> (weights: Vec<usize>)
        ensures
            weights@ == self.trellis@.weights,
    {
        self.trellis.get_weights()
    }

    /// Returns the amplitude sequence for a given index
    ///
    /// The index must be at least 0 and below the number of sequences.
    pub fn sequence_for_index(&self, index: &Integer) -> (r: Result<Vec<usize>, ShapingError>)
        requires
            self.wf(),
        ensures
            r is Ok <==> 0 <= int_val(*index) < self.spec_num_sequences(),
            r matches Err(e) ==> e == ShapingError::IndexOutOfRange,
            r matches Ok(amplitudes) ==> is_amplitudes_of(
                amplitudes@,
                rev_unrank(self.trellis@.weights, self.trellis@.n_max as nat, int_val(*index)),
            ),
    {
        let count = self.num_sequences();
        let zero = big_from(0);
        if big_lt(index, &zero) || !big_lt(index, &count) {
            return Err(ShapingError::IndexOutOfRange);
        }
        let n_max = self.trellis.n_max();
        let ghost view = self.trellis@;
        let ghost w = view.weights;
        let ghost x = int_val(*index);

        // The weight level at which the sequence ends.
        let last_stage = self.trellis.get_stage(n_max);
        let weight_levels = self.trellis.get_weight_levels();
        let mut lower_nodes_sum = big_from(0);
        let mut terminal_wl: usize = 0;
        let mut found: bool = false;
        let mut c: usize = 0;
        while c < last_stage.len() && !found
            invariant
                c <= last_stage@.len(),
                self.wf(),
                view == self.trellis@,
                w == view.weights,
                n_max == view.n_max,
                x == int_val(*index),
                0 <= x < rev_total(w, n_max as nat, view.threshold as int),
                last_stage@.len() == view.num_levels,
                weight_levels@ == view.levels,
                forall|d: int|
                    0 <= d < last_stage@.len() ==> int_val(#[trigger] last_stage@[d])
                        == view.values[n_max as int][d],
                !found && c == 0 ==> int_val(lower_nodes_sum) == 0,
                !found && c > 0 ==> int_val(lower_nodes_sum) == rev_total(
                    w,
                    n_max as nat,
                    view.levels[c - 1] as int,
                ) && int_val(lower_nodes_sum) <= x,
                found ==> c > 0 && terminal_wl == view.levels[c - 1] && in_level(
                    w,
                    n_max as nat,
                    terminal_wl as int,
                    x,
                ) && int_val(lower_nodes_sum) == rev_total(w, n_max as nat, terminal_wl - 1),
            decreases last_stage@.len() - c,
        {
            proof {
                lemma_total_below_level(w, n_max as nat, view.levels, c as int);
                assert(view.values[n_max as int][c as int] == rev_count(
                    w,
                    n_max as nat,
                    view.levels[c as int] as int,
                ));
            }
            let upto = big_add(&lower_nodes_sum, &last_stage[c]);
            if big_lt(index, &upto) {
                terminal_wl = weight_levels[c];
                found = true;
            } else {
                lower_nodes_sum = upto;
            }
            c += 1;
        }
        proof {
            if !found {
                assert(false);
            }
            lemma_rev_level_unique(w, n_max as nat, terminal_wl as int, rev_level(w, n_max as nat, x), x);
            lemma_level_position(view.levels, c - 1, view.num_levels - 1);
        }
        let mut local_index = big_sub(index, &lower_nodes_sum);

        let mut weight_idx_seq: Vec<usize> = Vec::new();
        let mut k: usize = 0;
        while k < n_max
            invariant
                k <= n_max,
                weight_idx_seq@.len() == k,
            decreases n_max - k,
        {
            weight_idx_seq.push(0);
            k += 1;
        }
        let ghost target = rev_unrank(w, n_max as nat, x);
        let ghost mut chosen: Seq<int> = Seq::empty();
        let mut current_wl: usize = terminal_wl;
        let mut stage: usize = n_max;
        proof {
            assert(rev_unrank_within(w, n_max as nat, terminal_wl as int, int_val(local_index))
                + chosen =~= target);
            assert(view.has_level(terminal_wl as int));
        }
        while stage > 0
            invariant
                stage <= n_max,
                self.wf(),
                view == self.trellis@,
                w == view.weights,
                n_max == view.n_max,
                weight_idx_seq@.len() == n_max,
                chosen.len() == n_max - stage,
                forall|k: int| stage <= k < n_max ==> #[trigger] weight_idx_seq@[k] == chosen[k - stage],
                forall|k: int| 0 <= k < chosen.len() ==> 0 <= #[trigger] chosen[k] < w.len(),
                view.has_level(current_wl as int),
                0 <= int_val(local_index) < rev_count(w, stage as nat, current_wl as int),
                target == rev_unrank_within(w, stage as nat, current_wl as int, int_val(local_index))
                    + chosen,
            decreases stage,
        {
            stage -= 1;
            let predecessors = self.trellis.get_predecessors(current_wl);
            let ghost syms = symbols_in(predecessors@);
            let ghost len = (stage + 1) as nat;
            let ghost branches = rev_branches(w, len, current_wl as int);
            let ghost place = int_val(local_index);
            let ghost old_chosen = chosen;
            let old_wl = current_wl;
            let mut lower = big_from(0);
            let mut picked_one: bool = false;
            let mut q: usize = 0;
            proof {
                assert(picked(branches, syms.take(0)) =~= Seq::<int>::empty());
            }
            while q < predecessors.len() && !picked_one
                invariant
                    q <= predecessors@.len(),
                    stage < n_max,
                    self.wf(),
                    view == self.trellis@,
                    w == view.weights,
                    n_max == view.n_max,
                    len == (stage + 1) as nat,
                    weight_idx_seq@.len() == n_max,
                    old_chosen.len() == n_max - stage - 1,
                    forall|k: int|
                        stage + 1 <= k < n_max ==> #[trigger] weight_idx_seq@[k] == old_chosen[k - stage
                            - 1],
                    view.has_level(old_wl as int),
                    is_predecessor_list(w, view.levels, old_wl as int, predecessors@),
                    syms == symbols_in(predecessors@),
                    branches == rev_branches(w, len, old_wl as int),
                    place == int_val(local_index),
                    0 <= place < rev_count(w, len, old_wl as int),
                    !picked_one ==> chosen == old_chosen && current_wl == old_wl && int_val(lower)
                        == seq_sum(picked(branches, syms.take(q as int))) && int_val(lower) <= place,
                    picked_one ==> q > 0 && chosen == seq![syms[q - 1]] + old_chosen
                        && weight_idx_seq@[stage as int] == syms[q - 1] && 0 <= syms[q - 1] < w.len()
                        && view.has_level(current_wl as int) && current_wl == old_wl - w[syms[q - 1]]
                        && in_block(branches, symbol_after(w), syms[q - 1], place) && int_val(lower)
                        == rev_below(w, len, old_wl as int, syms[q - 1]),
                decreases predecessors@.len() - q,
            {
                let (w_idx, pred_wl) = predecessors[q];
                proof {
                    assert(predecessors@[q as int].0 == w_idx);
                    assert(syms[q as int] == w_idx);
                    assert(picked(branches, syms.take(q + 1)) =~= picked(
                        branches,
                        syms.take(q as int),
                    ).push(branches[w_idx as int]));
                    lemma_sum_push(picked(branches, syms.take(q as int)), branches[w_idx as int]);
                    self.lemma_predecessor_has_column(old_wl as int, pred_wl as int);
                    view.lemma_level_index(pred_wl as int);
                }
                let node_value = self.trellis.get(stage, pred_wl);
                let upto = big_add(&lower, &node_value);
                if big_lt(&local_index, &upto) {
                    proof {
                        self.lemma_predecessor_block(old_wl as int, len, predecessors@, q as int);
                        chosen = seq![w_idx as int] + chosen;
                    }
                    current_wl = pred_wl;
                    weight_idx_seq[stage] = w_idx;
                    picked_one = true;
                } else {
                    lower = upto;
                }
                q += 1;
            }
            proof {
                if !picked_one {
                    assert(syms.take(q as int) =~= syms);
                    self.lemma_predecessor_total(old_wl as int, len, predecessors@);
                    assert(false);
                }
                let i = syms[q - 1];
                lemma_rev_select_is(w, len, old_wl as int, place, i);
                let rest = rev_unrank_within(
                    w,
                    (len - 1) as nat,
                    old_wl - w[i],
                    place - rev_below(w, len, old_wl as int, i),
                );
                assert(rev_unrank_within(w, len, old_wl as int, place) =~= rest.push(i));
                assert(rest.push(i) + old_chosen =~= rest + (seq![i] + old_chosen));
                assert forall|k: int| stage <= k < n_max implies #[trigger] weight_idx_seq@[k]
                    == chosen[k - stage] by {
                    if k > stage {
                        assert(chosen[k - stage] == old_chosen[k - stage - 1]);
                    }
                }
            }
            local_index = big_sub(&local_index, &lower);
        }
        proof {
            assert(Seq::<int>::empty() + chosen =~= chosen);
        }
        let mut amplitudes: Vec<usize> = Vec::new();
        let mut k: usize = 0;
        while k < n_max
            invariant
                k <= n_max,
                weight_idx_seq@.len() == n_max,
                chosen.len() == n_max,
                w.len() <= crate::trellis::MAX_SYMBOLS,
                forall|j: int| 0 <= j < n_max ==> #[trigger] weight_idx_seq@[j] == chosen[j],
                forall|j: int| 0 <= j < chosen.len() ==> 0 <= #[trigger] chosen[j] < w.len(),
                amplitudes@.len() == k,
                forall|j: int| 0 <= j < k ==> #[trigger] amplitudes@[j] == 2 * chosen[j] + 1,
            decreases n_max - k,
        {
            proof {
                assert(0 <= chosen[k as int] < w.len());
            }
            amplitudes.push(RTS::weight_idx_to_amplitude(weight_idx_seq[k]));
            k += 1;
        }
        Ok(amplitudes)
    }

    /// A predecessor of a weight level with a column has a column.
    proof fn lemma_predecessor_has_column(&self, wl: int, pred: int)
        requires
            self.wf(),
            self.trellis@.has_level(wl),
            lists(self.trellis@.levels, pred),
            pred <= wl,
        ensures
            self.trellis@.has_level(pred),
            reachable(self.trellis@.weights, pred),
    {
        let view = self.trellis@;
        let p = choose|p: int| 0 <= p < view.levels.len() && view.levels[p] == pred;
        assert(reachable(view.weights, view.levels[p] as int));
    }

    /// The counts at the predecessors of a node add up to the count at the
    /// node.
    proof fn lemma_predecessor_total(&self, wl: int, len: nat, l: Seq<(usize, usize)>)
        requires
            self.wf(),
            len > 0,
            self.trellis@.has_level(wl),
            is_predecessor_list(self.trellis@.weights, self.trellis@.levels, wl, l),
        ensures
            seq_sum(picked(rev_branches(self.trellis@.weights, len, wl), symbols_in(l))) == rev_count(
                self.trellis@.weights,
                len,
                wl,
            ),
    {
        let view = self.trellis@;
        let w = view.weights;
        let branches = rev_branches(w, len, wl);
        let syms = symbols_in(l);
        lemma_predecessor_symbols(w, view.levels, wl, l);
        assert forall|j: int| 0 <= j < branches.len() && !syms.contains(j) implies #[trigger] branches[j]
            == 0 by {
            if branches[j] != 0 {
                self.lemma_stays_in_universe(wl, len, j);
            }
        }
        lemma_sum_picked(branches, syms);
        lemma_rev_count_unfold(w, len, wl);
    }

    /// A symbol by which some sequence reaches a node with a column leaves a
    /// weight level that the trellis knows.
    proof fn lemma_stays_in_universe(&self, wl: int, len: nat, j: int)
        requires
            self.wf(),
            len > 0,
            self.trellis@.has_level(wl),
            0 <= j < self.trellis@.weights.len(),
            rev_branches(self.trellis@.weights, len, wl)[j] != 0,
        ensures
            lists(self.trellis@.levels, wl - self.trellis@.weights[j]),
    {
        let view = self.trellis@;
        let w = view.weights;
        lemma_rev_count_reachable(w, (len - 1) as nat, wl - w[j]);
        lemma_reachable_nonneg(w, wl - w[j]);
        let c = choose|c: int| 0 <= c < view.num_levels && c < view.levels.len() && view.levels[c] == wl;
        lemma_level_position(view.levels, c, view.levels.len() - 1);
        assert(lists(view.levels, wl - w[j]));
    }

    /// The counts at the predecessors listed ahead of an entry add up to the
    /// start of the block of that entry's symbol.
    proof fn lemma_predecessor_block(&self, wl: int, len: nat, l: Seq<(usize, usize)>, q: int)
        requires
            self.wf(),
            len > 0,
            self.trellis@.has_level(wl),
            is_predecessor_list(self.trellis@.weights, self.trellis@.levels, wl, l),
            0 <= q < l.len(),
        ensures
            seq_sum(picked(rev_branches(self.trellis@.weights, len, wl), symbols_in(l).take(q)))
                == rev_below(self.trellis@.weights, len, wl, l[q].0 as int),
            symbols_in(l)[q] == l[q].0,
    {
        let view = self.trellis@;
        let w = view.weights;
        let branches = rev_branches(w, len, wl);
        let syms = symbols_in(l);
        lemma_predecessor_symbols(w, view.levels, wl, l);
        lemma_symbol_orders(w);
        assert forall|j: int|
            0 <= j < branches.len() && symbol_after(w)(j, syms[q]) && !syms.take(q).contains(j) implies #[trigger] branches[j]
            == 0 by {
            if branches[j] != 0 {
                self.lemma_stays_in_universe(wl, len, j);
                assert(crate::counting::precedes(w, l[q].0 as int, j));
                assert(symbols_in(l).take(q).contains(j));
            }
        }
        assert forall|p: int, r: int| 0 <= p < r < syms.len() implies symbol_after(w)(
            syms[p],
            syms[r],
        ) by {
            assert(crate::counting::precedes(w, syms[r], syms[p]));
        }
        lemma_block_start_of_listed(branches, symbol_after(w), syms, q);
    }

    /// Whether `sequence` is a sequence of the code.
    pub fn is_sequence(&self, sequence: &[usize]) -> (valid: bool)
        requires
            self.wf(),
        ensures
            valid == self.is_code_sequence(sequence@),
    {
        let ghost view = self.trellis@;
        let ghost w = view.weights;
        let ghost s = symbols_of(sequence@);
        let n_max = self.trellis.n_max();
        let threshold = self.trellis.threshold();
        let weights = self.trellis.get_weights();
        if sequence.len() != n_max {
            return false;
        }
        let mut weight: usize = 0;
        let mut k: usize = 0;
        proof {
            assert(s.take(0) =~= Seq::<int>::empty());
        }
        while k < sequence.len()
            invariant
                k <= sequence@.len(),
                sequence@.len() == n_max,
                self.wf(),
                view == self.trellis@,
                w == view.weights,
                n_max == view.n_max,
                weights@ == w,
                s == symbols_of(sequence@),
                threshold == view.threshold,
                weight <= threshold,
                weight == weight_of(w, s.take(k as int)),
                forall|j: int| 0 <= j < k ==> #[trigger] sequence@[j] % 2 == 1,
                forall|j: int| 0 <= j < k ==> 0 <= #[trigger] s[j] < w.len(),
            decreases sequence@.len() - k,
        {
            let amplitude: usize = sequence[k];
            if amplitude % 2 != 1 {
                return false;
            }
            let symbol: usize = RTS::amplitude_to_weight_idx(amplitude);
            if symbol >= weights.len() {
                proof {
                    assert(s[k as int] == symbol);
                }
                return false;
            }
            proof {
                assert(s[k as int] == symbol);
                assert(s.take(k + 1).drop_last() =~= s.take(k as int));
            }
            if weights[symbol] > threshold - weight {
                proof {
                    // The weight passes the threshold here and does not
                    // come down again.
                    if is_symbols(w, s) {
                        lemma_weight_prefix(w, s, k + 1);
                    }
                }
                return false;
            }
            weight = weight + weights[symbol];
            k += 1;
        }
        proof {
            assert(s.take(k as int) =~= s);
        }
        true
    }

    /// Returns the index for a given amplitude sequence
    pub fn index_for_sequence(&self, amplitude_sequence: &[usize]) -> (index: Integer)
        requires
            self.wf(),
            self.is_code_sequence(amplitude_sequence@),
        ensures
            int_val(index) == rev_rank(self.trellis@.weights, symbols_of(amplitude_sequence@)),
    {
        let n_max = self.trellis.n_max();
        let ghost view = self.trellis@;
        let ghost w = view.weights;
        let ghost s = symbols_of(amplitude_sequence@);
        proof {
            assert forall|k: int| 0 <= k < amplitude_sequence@.len() implies #[trigger] amplitude_sequence@[k]
                >= 1 by {
                assert(amplitude_sequence@[k] % 2 == 1);
            }
        }
        let weight_idx_seq = RTS::amplitude_seq_to_weight_idx_seq(amplitude_sequence);
        let weights = self.trellis.get_weights();
        let wl_path = amplitude_weight_path(weights.as_slice(), amplitude_sequence);
        proof {
            assert(s.take(n_max as int) =~= s);
            assert forall|k: int| 0 <= k <= n_max implies view.has_level(#[trigger] wl_path@[k] as int) by {
                lemma_weight_prefix(w, s, k);
                let prefix = s.take(k);
                assert(is_symbols(w, prefix));
                assert(reachable(w, weight_of(w, prefix)));
            }
            view.lemma_level_index(wl_path@[n_max as int] as int);
        }
        let num_lower_end_nodes = self.trellis.get_weight_level_index(wl_path[n_max]);
        let mut index = self.sum_of_last_stage(num_lower_end_nodes);
        proof {
            lemma_total_below_level(w, n_max as nat, view.levels, num_lower_end_nodes as int);
        }
        let mut stage: usize = n_max;
        while stage > 0
            invariant
                stage <= n_max,
                self.wf(),
                view == self.trellis@,
                w == view.weights,
                n_max == view.n_max,
                s == symbols_of(amplitude_sequence@),
                fwd_valid(w, n_max as nat, view.threshold as int, s),
                weight_idx_seq@.len() == n_max,
                forall|k: int| 0 <= k < n_max ==> #[trigger] weight_idx_seq@[k] == s[k],
                wl_path@.len() == n_max + 1,
                forall|k: int| 0 <= k <= n_max ==> #[trigger] wl_path@[k] == weight_of(w, s.take(k)),
                forall|k: int| 0 <= k <= n_max ==> view.has_level(#[trigger] wl_path@[k] as int),
                int_val(index) + rev_rank_within(w, s.take(stage as int)) == rev_rank(w, s),
            decreases stage,
        {
            let idx: usize = stage - 1;
            let weight_idx: usize = weight_idx_seq[idx];
            let predecessor_wl: usize = wl_path[idx];
            let wl: usize = wl_path[stage];
            let predecessors = self.trellis.get_predecessors(wl);
            let ghost syms = symbols_in(predecessors@);
            let ghost len = stage as nat;
            let ghost branches = rev_branches(w, len, wl as int);
            let ghost start = int_val(index);
            let mut q: usize = 0;
            let mut done: bool = false;
            proof {
                assert(s[idx as int] == weight_idx);
                assert(0 <= s[idx as int] < w.len());
                assert(s.take(stage as int).drop_last() =~= s.take(idx as int));
                assert(s.take(stage as int).last() == weight_idx);
                assert(wl == predecessor_wl + w[weight_idx as int]);
                assert(view.has_level(wl as int));
                assert(view.has_level(predecessor_wl as int));
                lemma_predecessor_symbols(w, view.levels, wl as int, predecessors@);
                assert(lists(view.levels, wl - w[weight_idx as int]));
                assert(syms.contains(weight_idx as int));
                assert(picked(branches, syms.take(0)) =~= Seq::<int>::empty());
            }
            while q < predecessors.len() && !done
                invariant
                    q <= predecessors@.len(),
                    0 < stage <= n_max,
                    idx == stage - 1,
                    self.wf(),
                    view == self.trellis@,
                    w == view.weights,
                    n_max == view.n_max,
                    len == stage as nat,
                    0 <= weight_idx < w.len(),
                    wl == predecessor_wl + w[weight_idx as int],
                    view.has_level(wl as int),
                    is_predecessor_list(w, view.levels, wl as int, predecessors@),
                    syms == symbols_in(predecessors@),
                    syms.contains(weight_idx as int),
                    branches == rev_branches(w, len, wl as int),
                    !done ==> forall|p: int| 0 <= p < q ==> syms[p] != weight_idx,
                    done ==> q < predecessors@.len() && syms[q as int] == weight_idx,
                    int_val(index) == start + seq_sum(picked(branches, syms.take(q as int))),
                decreases predecessors@.len() - q + (if done { 0int } else { 1int }),
            {
                let (possible_weight_idx, possible_predecessor_wl) = predecessors[q];
                proof {
                    assert(predecessors@[q as int].0 == possible_weight_idx);
                    assert(syms[q as int] == possible_weight_idx);
                }
                if possible_predecessor_wl <= predecessor_wl && possible_weight_idx != weight_idx {
                    proof {
                        self.lemma_predecessor_has_column(wl as int, possible_predecessor_wl as int);
                        view.lemma_level_index(possible_predecessor_wl as int);
                        assert(picked(branches, syms.take(q + 1)) =~= picked(
                            branches,
                            syms.take(q as int),
                        ).push(branches[possible_weight_idx as int]));
                        lemma_sum_push(
                            picked(branches, syms.take(q as int)),
                            branches[possible_weight_idx as int],
                        );
                    }
                    let below = self.trellis.get(stage - 1, possible_predecessor_wl);
                    index = big_add(&index, &below);
                    q += 1;
                } else {
                    proof {
                        if possible_weight_idx != weight_idx {
                            // A lighter symbol stands here, so the symbol
                            // taken would have to stand ahead of it.
                            let p = choose|p: int| 0 <= p < syms.len() && syms[p] == weight_idx;
                            lemma_predecessor_symbols(w, view.levels, wl as int, predecessors@);
                            if p > q {
                                assert(crate::counting::precedes(w, syms[p], syms[q as int]));
                            }
                            assert(false);
                        }
                    }
                    done = true;
                }
            }
            proof {
                if !done {
                    let p = choose|p: int| 0 <= p < syms.len() && syms[p] == weight_idx;
                    assert(false);
                }
                self.lemma_predecessor_block(wl as int, len, predecessors@, q as int);
            }
            stage -= 1;
        }
        proof {
            assert(s.take(0) =~= Seq::<int>::empty());
        }
        index
    }
}

} // verus!
