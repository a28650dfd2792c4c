//! Arbitrary-distribution enumerative sphere shaping: the code of all symbol
//! sequences whose weight stays within a threshold, enumerated stage by stage
//! in the order of the successors.

use crate::amplitudes::{all_odd, is_amplitudes_of, symbol_of, symbols_of};
use crate::bigint::{big_add, big_bits, big_from, big_lt, int_val};
use crate::counting::{
    fwd_below, fwd_branches, fwd_count, fwd_rank, fwd_unrank, fwd_valid, lemma_fwd_count_bound,
    lemma_fwd_count_nonneg, lemma_fwd_count_positive, lemma_fwd_count_unfold, lemma_fwd_select_is,
    lemma_level_position, lemma_reachable_step, lemma_rev_count_reachable, lemma_rev_count_unfold,
    lemma_symbol_orders, lemma_weight_prefix, lists, reachable, rev_branches, rev_count,
    symbol_before, weight_of,
};
use crate::error::ShapingError;
use crate::sums::{lemma_block_start_of_listed, lemma_sum_picked, lemma_sum_push, picked, seq_sum};
use crate::trellis::{
    is_predecessor_list, is_successor_list, lemma_predecessor_symbols, lemma_successor_symbols,
    symbols_in, Trellis, TrellisView, valid_config,
};
use crate::trellis_utils::{holds_reverse_counts, holds_reverse_counts_upto};
use rug::Integer;
use vstd::arithmetic::power2::{lemma_pow2_strictly_increases, pow2};
use vstd::prelude::*;

verus! {

/// From stage `from` on, every entry of the table is the number of ways to
/// go on from its node to the last stage within the threshold.
pub open spec fn holds_forward_counts(t: TrellisView, from: int) -> bool {
    forall|stage: int, c: int|
        from <= stage <= t.n_max && 0 <= c < t.levels.len() ==> #[trigger] t.values[stage][c]
            == fwd_count(t.weights, (t.n_max - stage) as nat, t.threshold - t.levels[c])
}

/// Arbitrary-Distribution ESS (AD-ESS)
///
/// This struct contains methods to [encode](AdEss::sequence_for_index) and
/// [decode](AdEss::index_for_sequence) using AD-ESS.
pub struct AdEss {
    pub trellis: Trellis,
}

impl AdEss {
    /// The trellis is complete and holds the forward path counts.
    pub open spec fn wf(&self) -> bool {
        &&& self.trellis.wf()
        &&& self.trellis@.num_levels == self.trellis@.levels.len()
        &&& holds_forward_counts(self.trellis@, 0)
    }

    /// The number of sequences of the code.
    pub open spec fn spec_num_sequences(&self) -> int {
        fwd_count(self.trellis@.weights, self.trellis@.n_max as nat, self.trellis@.threshold as int)
    }

    /// `amplitudes` is a sequence of the code: one odd amplitude of a symbol
    /// of the code for each stage, of a weight within the threshold.
    pub open spec fn is_code_sequence(&self, amplitudes: Seq<usize>) -> bool {
        &&& all_odd(amplitudes)
        &&& fwd_valid(
            self.trellis@.weights,
            self.trellis@.n_max as nat,
            self.trellis@.threshold as int,
            symbols_of(amplitudes),
        )
    }

    /// Returns a new [AdEss] instance given weights
    ///
    /// The trellis is calculated with `n_max` stages using the weights `weights` and holds
    /// sequences with a sum weight up to `threshold`.
    pub fn new(threshold: usize, n_max: usize, weights: &[usize]) -> (r: Result<AdEss, ShapingError>)
        ensures
            r is Ok <==> valid_config(weights@, threshold, n_max),
            r matches Err(e) ==> e == ShapingError::InvalidConfiguration,
            r matches Ok(code) ==> code.wf() && code.trellis@.threshold == threshold
                && code.trellis@.n_max == n_max && code.trellis@.weights == weights@,
    {
        match Trellis::new(threshold, n_max, weights) {
            Ok(trellis) => {
                let mut instance = AdEss { trellis };
                instance.calc_forward_trellis();
                Ok(instance)
            },
            Err(e) => Err(e),
        }
    }

    /// Fill `self.trellis` with values
    fn calc_forward_trellis(&mut self)
        requires
            old(self).trellis.wf(),
            old(self).trellis@.num_levels == old(self).trellis@.levels.len(),
        ensures
            final(self).wf(),
            final(self).trellis@.same_shape(old(self).trellis@),
    {
        let n_max = self.trellis.n_max();
        let weight_levels = self.trellis.get_weight_levels();
        let ghost shape = self.trellis@;
        let ghost w = shape.weights;
        let ghost t = shape.threshold as int;
        let mut n: usize = n_max + 1;
        while n > 0
            invariant
                n <= n_max + 1,
                n_max == shape.n_max,
                weight_levels@ == shape.levels,
                w == shape.weights,
                t == shape.threshold,
                shape.num_levels == shape.levels.len(),
                self.trellis.wf(),
                self.trellis@.same_shape(shape),
                holds_forward_counts(self.trellis@, n as int),
            decreases n,
        {
            n -= 1;
            let mut c: usize = 0;
            while c < weight_levels.len()
                invariant
                    n <= n_max,
                    c <= weight_levels@.len(),
                    n_max == shape.n_max,
                    weight_levels@ == shape.levels,
                    w == shape.weights,
                    t == shape.threshold,
                    shape.num_levels == shape.levels.len(),
                    self.trellis.wf(),
                    self.trellis@.same_shape(shape),
                    holds_forward_counts(self.trellis@, n + 1),
                    forall|d: int|
                        0 <= d < c ==> #[trigger] self.trellis@.values[n as int][d] == fwd_count(
                            w,
                            (n_max - n) as nat,
                            t - shape.levels[d],
                        ),
                decreases weight_levels@.len() - c,
            {
                let wl: usize = weight_levels[c];
                let ghost before = self.trellis@;
                proof {
                    before.lemma_level_index(wl as int);
                    lemma_level_position(shape.levels, c as int, before.level_index(wl as int));
                    assert(before.has_level(wl as int));
                    assert(reachable(w, wl as int));
                }
                if n == n_max {
                    // number of possible sequences for end nodes is 1
                    self.trellis.set(n, wl, big_from(1));
                } else {
                    // number of possible paths for a node is the sum of the number
                    // of possible sequences of all successor nodes
                    let successors = self.trellis.get_successors(wl);
                    let ghost syms = symbols_in(successors@);
                    let ghost branches = fwd_branches(w, (n_max - n) as nat, t - wl);
                    let mut total = big_from(0);
                    let mut q: usize = 0;
                    proof {
                        lemma_successor_symbols(w, t, wl as int, successors@);
                        assert(picked(branches, syms.take(0)) =~= Seq::<int>::empty());
                    }
                    while q < successors.len()
                        invariant
                            q <= successors@.len(),
                            n < n_max,
                            n_max == shape.n_max,
                            w == shape.weights,
                            t == shape.threshold,
                            shape.num_levels == shape.levels.len(),
                            self.trellis.wf(),
                            self.trellis@ == before,
                            before.same_shape(shape),
                            before.has_level(wl as int),
                            reachable(w, wl as int),
                            holds_forward_counts(self.trellis@, n + 1),
                            is_successor_list(w, t, wl as int, successors@),
                            syms == symbols_in(successors@),
                            branches == fwd_branches(w, (n_max - n) as nat, t - wl),
                            int_val(total) == seq_sum(picked(branches, syms.take(q as int))),
                        decreases successors@.len() - q,
                    {
                        let (weight_index, next_wl) = successors[q];
                        proof {
                            assert(successors@[q as int].0 == weight_index);
                            lemma_reachable_step(w, wl as int, weight_index as int);
                            assert(before.has_level(next_wl as int));
                            before.lemma_level_index(next_wl as int);
                            assert(picked(branches, syms.take(q + 1)) =~= picked(
                                branches,
                                syms.take(q as int),
                            ).push(branches[weight_index as int]));
                            lemma_sum_push(
                                picked(branches, syms.take(q as int)),
                                branches[weight_index as int],
                            );
                        }
                        let next = self.trellis.get(n + 1, next_wl);
                        total = big_add(&total, &next);
                        q += 1;
                    }
                    proof {
                        assert(syms.take(q as int) =~= syms);
                        lemma_sum_picked(branches, syms);
                        lemma_fwd_count_unfold(w, (n_max - n) as nat, t - wl);
                    }
                    self.trellis.set(n, wl, total);
                }
                proof {
                    let after = self.trellis@;
                    assert(after.same_shape(shape));
                    assert forall|stage: int, d: int|
                        n + 1 <= stage <= after.n_max && 0 <= d < after.levels.len() implies #[trigger] after.values[stage][d]
                            == fwd_count(
                            after.weights,
                            (after.n_max - stage) as nat,
                            after.threshold - after.levels[d],
                        ) by {
                        assert(after.values[stage][d] == before.values[stage][d]);
                    }
                    assert forall|d: int| 0 <= d < c + 1 implies #[trigger] after.values[n as int][d]
                        == fwd_count(w, (n_max - n) as nat, t - shape.levels[d]) by {
                        if d < c {
                            assert(after.values[n as int][d] == before.values[n as int][d]);
                        }
                    }
                }
                c += 1;
            }
        }
    }

    /// Returns the amplitude value for a given weight index
    fn weight_idx_to_amplitude(weight_index: usize) -> (amplitude: usize)
        requires
            weight_index <= usize::MAX / 2,
        ensures
            amplitude == 2 * weight_index + 1,
            symbol_of(amplitude) == weight_index,
    {
        weight_index * 2 + 1
    }

    /// Replaces the amplitudes in a sequence by their weight indexes
    fn amplitude_seq_to_weight_idx_seq(amplitude_sequence: &[usize]) -> (symbols: Vec<usize>)
        requires
            forall|k: int| 0 <= k < amplitude_sequence@.len() ==> #[trigger] amplitude_sequence@[k] >= 1,
        ensures
            symbols@.len() == amplitude_sequence@.len(),
            forall|k: int|
                0 <= k < symbols@.len() ==> #[trigger] symbols@[k] == symbol_of(amplitude_sequence@[k]),
    {
        let mut symbols: Vec<usize> = Vec::new();
        let mut k: usize = 0;
        while k < amplitude_sequence.len()
            invariant
                k <= amplitude_sequence@.len(),
                symbols@.len() == k,
                forall|j: int|
                    0 <= j < amplitude_sequence@.len() ==> #[trigger] amplitude_sequence@[j] >= 1,
                forall|j: int|
                    0 <= j < k ==> #[trigger] symbols@[j] == symbol_of(amplitude_sequence@[j]),
            decreases amplitude_sequence@.len() - k,
        {
            symbols.push((amplitude_sequence[k] - 1) / 2);
            k += 1;
        }
        symbols
    }

    /// Returns the number of sequences that can be encoded / decoded
    pub fn num_sequences(&self) -> (count: Integer)
        requires
            self.wf(),
        ensures
            int_val(count) == self.spec_num_sequences(),
            int_val(count) >= 1,
    {
        proof {
            let view = self.trellis@;
            assert(view.levels[0] == 0);
            assert(view.has_level(0));
            view.lemma_level_index(0);
            lemma_level_position(view.levels, 0, view.level_index(0));
            assert(view.values[0][0] == fwd_count(
                view.weights,
                (view.n_max - 0) as nat,
                view.threshold - view.levels[0],
            ));
            lemma_fwd_count_positive(view.weights, view.n_max as nat, view.threshold as int);
        }
        self.trellis.get(0, 0)
    }

    /// Returns the number of bits that can be encoded / decoded: the largest
    /// number of which two to its power is at most the number of sequences.
    pub fn num_bits(&self) -> (bits: u32)
        requires
            self.wf(),
        ensures
            pow2(bits as nat) <= self.spec_num_sequences() < pow2((bits + 1) as nat),
    {
        let count = self.num_sequences();
        proof {
            let view = self.trellis@;
            lemma_fwd_count_bound(view.weights, view.n_max as nat, view.threshold as int);
            lemma_pow2_strictly_increases((64 * view.n_max) as nat, u32::MAX as nat);
        }
        big_bits(&count) - 1
    }

    /// Returns the weights used by the internal trellis
    pub fn get_weights(&self) -> (weights: Vec<usize>)
        ensures
            weights@ == self.trellis@.weights,
    {
        self.trellis.get_weights()
    }

    /// Returns the amplitude sequence for a given `index` (encode)
    ///
    /// The index must be at least 0 and below the number of sequences.
    pub fn sequence_for_index(&self, index: &Integer) -> (r: Result<Vec<usize>, ShapingError>)
        requires
            self.wf(),
        ensures
            r is Ok <==> 0 <= int_val(*index) < self.spec_num_sequences(),
            r matches Err(e) ==> e == ShapingError::IndexOutOfRange,
            r matches Ok(amplitudes) ==> is_amplitudes_of(
                amplitudes@,
                fwd_unrank(
                    self.trellis@.weights,
                    self.trellis@.n_max as nat,
                    self.trellis@.threshold as int,
                    int_val(*index),
                ),
            ),
    {
        let count = self.num_sequences();
        let zero = big_from(0);
        if big_lt(index, &zero) || !big_lt(index, &count) {
            return Err(ShapingError::IndexOutOfRange);
        }
        let n_max = self.trellis.n_max();
        let ghost view = self.trellis@;
        let ghost w = view.weights;
        let ghost t = view.threshold as int;
        let ghost x = int_val(*index);
        let ghost target = fwd_unrank(w, n_max as nat, t, x);

        let mut amplitude_sequence: Vec<usize> = Vec::new();
        let ghost mut chosen: Seq<int> = Seq::empty();
        let mut current_wl: usize = 0;
        let mut num_sequences_left_below = big_from(0);
        let mut n: usize = 0;
        proof {
            assert(view.levels[0] == 0);
            assert(view.has_level(0));
            assert(chosen + fwd_unrank(w, n_max as nat, t, x) =~= target);
        }
        while n < n_max
            invariant
                n <= n_max,
                self.wf(),
                view == self.trellis@,
                w == view.weights,
                t == view.threshold,
                n_max == view.n_max,
                x == int_val(*index),
                target == fwd_unrank(w, n_max as nat, t, x),
                view.has_level(current_wl as int),
                chosen.len() == n,
                is_amplitudes_of(amplitude_sequence@, chosen),
                0 <= x - int_val(num_sequences_left_below) < fwd_count(
                    w,
                    (n_max - n) as nat,
                    t - current_wl,
                ),
                target == chosen + fwd_unrank(
                    w,
                    (n_max - n) as nat,
                    t - current_wl,
                    x - int_val(num_sequences_left_below),
                ),
            decreases n_max - n,
        {
            let successors = self.trellis.get_successors(current_wl);
            let ghost syms = symbols_in(successors@);
            let ghost len = (n_max - n) as nat;
            let ghost budget = t - current_wl;
            let ghost branches = fwd_branches(w, len, budget);
            let ghost start = int_val(num_sequences_left_below);
            let mut found: bool = false;
            let mut q: usize = 0;
            proof {
                lemma_successor_symbols(w, t, current_wl as int, successors@);
                assert(picked(branches, syms.take(0)) =~= Seq::<int>::empty());
                assert(reachable(w, current_wl as int));
                lemma_fwd_count_nonneg(w, len, budget);
                lemma_symbol_orders(w);
            }
            let ghost old_chosen = chosen;
            let old_wl = current_wl;
            while q < successors.len() && !found
                invariant
                    q <= successors@.len(),
                    n < n_max,
                    self.wf(),
                    view == self.trellis@,
                    w == view.weights,
                    t == view.threshold,
                    n_max == view.n_max,
                    x == int_val(*index),
                    len == (n_max - n) as nat,
                    budget == t - old_wl,
                    reachable(w, old_wl as int),
                    view.has_level(old_wl as int),
                    is_successor_list(w, t, old_wl as int, successors@),
                    syms == symbols_in(successors@),
                    branches == fwd_branches(w, len, budget),
                    0 <= x - start < fwd_count(w, len, budget),
                    old_chosen.len() == n,
                    is_amplitudes_of(amplitude_sequence@, chosen),
                    !found ==> chosen == old_chosen && current_wl == old_wl && int_val(
                        num_sequences_left_below,
                    ) == start + seq_sum(picked(branches, syms.take(q as int))) && int_val(
                        num_sequences_left_below,
                    ) <= x,
                    found ==> q > 0 && chosen == old_chosen.push(syms[q - 1]) && view.has_level(
                        current_wl as int,
                    ) && current_wl == old_wl + w[syms[q - 1]] && 0 <= x - int_val(
                        num_sequences_left_below,
                    ) < branches[syms[q - 1]] && crate::sums::in_block(
                        branches,
                        symbol_before(w),
                        syms[q - 1],
                        x - start,
                    ) && int_val(num_sequences_left_below) - start == fwd_below(
                        w,
                        len,
                        budget,
                        syms[q - 1],
                    ),
                decreases successors@.len() - q,
            {
                let (w_idx, next_wl) = successors[q];
                proof {
                    assert(successors@[q as int].0 == w_idx);
                    assert(syms[q as int] == w_idx);
                    lemma_reachable_step(w, old_wl as int, w_idx as int);
                    assert(view.has_level(next_wl as int));
                    view.lemma_level_index(next_wl as int);
                    assert(picked(branches, syms.take(q + 1)) =~= picked(
                        branches,
                        syms.take(q as int),
                    ).push(branches[w_idx as int]));
                    lemma_sum_push(picked(branches, syms.take(q as int)), branches[w_idx as int]);
                }
                let next_wl_value = self.trellis.get(n + 1, next_wl);

                // it is impossible to leave all sequences possible with `next_wl` below
                // when using `next_wl` as the next weight level
                let just_unreachable_index = big_add(&num_sequences_left_below, &next_wl_value);

                if big_lt(index, &just_unreachable_index) {
                    // we can reach the target index via next_wl
                    proof {
                        lemma_successor_symbols(w, t, old_wl as int, successors@);
                        lemma_symbol_orders(w);
                        assert forall|j: int|
                            0 <= j < branches.len() && symbol_before(w)(j, syms[q as int])
                                && !syms.take(q as int).contains(j) implies #[trigger] branches[j]
                            == 0 by {
                            assert(crate::counting::precedes(w, j, successors@[q as int].0 as int));
                            assert(symbols_in(successors@).take(q as int).contains(j));
                        }
                        lemma_block_start_of_listed(branches, symbol_before(w), syms, q as int);
                        chosen = chosen.push(w_idx as int);
                    }
                    amplitude_sequence.push(AdEss::weight_idx_to_amplitude(w_idx));
                    current_wl = next_wl;
                    found = true;
                } else {
                    // target index is not reachable if we use `next_wl` as next weight level
                    // -> to reach the target index, we have to use a higher next weight level
                    // thus we leave below all sequences possible with the current `next_wl`
                    num_sequences_left_below = just_unreachable_index;
                }
                q += 1;
            }
            proof {
                if !found {
                    assert(syms.take(q as int) =~= syms);
                    lemma_sum_picked(branches, syms);
                    lemma_fwd_count_unfold(w, len, budget);
                    assert(false);
                }
                let i = syms[q - 1];
                lemma_fwd_select_is(w, len, budget, x - start, i);
                assert(fwd_unrank(w, len, budget, x - start) =~= seq![i] + fwd_unrank(
                    w,
                    (len - 1) as nat,
                    budget - w[i],
                    x - start - fwd_below(w, len, budget, i),
                ));
                assert(old_chosen + (seq![i] + fwd_unrank(
                    w,
                    (len - 1) as nat,
                    budget - w[i],
                    x - start - fwd_below(w, len, budget, i),
                )) =~= old_chosen.push(i) + fwd_unrank(
                    w,
                    (len - 1) as nat,
                    budget - w[i],
                    x - start - fwd_below(w, len, budget, i),
                ));
            }
            n += 1;
        }
        proof {
            assert(chosen + Seq::<int>::empty() =~= chosen);
        }
        Ok(amplitude_sequence)
    }

    /// Returns the index for a given `amplitude_sequence` (decode)
    pub fn index_for_sequence(&self, amplitude_sequence: &[usize]) -> (index: Integer)
        requires
            self.wf(),
            self.is_code_sequence(amplitude_sequence@),
        ensures
            int_val(index) == fwd_rank(
                self.trellis@.weights,
                self.trellis@.threshold as int,
                symbols_of(amplitude_sequence@),
            ),
    {
        let n_max = self.trellis.n_max();
        let ghost view = self.trellis@;
        let ghost w = view.weights;
        let ghost t = view.threshold as int;
        let ghost s = symbols_of(amplitude_sequence@);
        proof {
            assert forall|k: int| 0 <= k < amplitude_sequence@.len() implies #[trigger] amplitude_sequence@[k]
                >= 1 by {
                assert(amplitude_sequence@[k] % 2 == 1);
            }
        }
        let weight_idx_seq = AdEss::amplitude_seq_to_weight_idx_seq(amplitude_sequence);

        // the index of the sequence, before the number of lower sequences is added
        let mut index = big_from(0);
        let mut current_wl: usize = 0;
        let mut n: usize = 0;
        proof {
            assert(view.levels[0] == 0);
            assert(view.has_level(0));
            assert(s.skip(0) =~= s);
            assert(s.take(0) =~= Seq::<int>::empty());
            crate::counting::lemma_reachable_zero(w);
        }
        // add number of lower sequences to the index
        while n < n_max
            invariant
                n <= n_max,
                self.wf(),
                view == self.trellis@,
                w == view.weights,
                t == view.threshold,
                n_max == view.n_max,
                s == symbols_of(amplitude_sequence@),
                fwd_valid(w, n_max as nat, t, s),
                weight_idx_seq@.len() == n_max,
                forall|k: int| 0 <= k < n_max ==> #[trigger] weight_idx_seq@[k] == s[k],
                current_wl == weight_of(w, s.take(n as int)),
                reachable(w, current_wl as int),
                view.has_level(current_wl as int),
                fwd_rank(w, t, s) == int_val(index) + fwd_rank(w, t - current_wl, s.skip(n as int)),
            decreases n_max - n,
        {
            let weight_idx: usize = weight_idx_seq[n];
            let successors = self.trellis.get_successors(current_wl);
            let ghost syms = symbols_in(successors@);
            let ghost len = (n_max - n) as nat;
            let ghost budget = t - current_wl;
            let ghost branches = fwd_branches(w, len, budget);
            let ghost start = int_val(index);
            proof {
                assert(s[n as int] == weight_idx);
                assert(0 <= s[n as int] < w.len());
                lemma_weight_prefix(w, s, n + 1);
                assert(s.take(n + 1).drop_last() =~= s.take(n as int));
                assert(weight_of(w, s.take(n + 1)) == current_wl + w[weight_idx as int]);
                lemma_successor_symbols(w, t, current_wl as int, successors@);
                assert(syms.contains(weight_idx as int));
                assert(picked(branches, syms.take(0)) =~= Seq::<int>::empty());
                lemma_symbol_orders(w);
            }
            let next_level: usize = current_wl + self.trellis.get_weight(weight_idx);
            // sum number of possible sequences where the next weight would have lower order than
            // the real next weight
            let mut q: usize = 0;
            let mut done: bool = false;
            while q < successors.len() && !done
                invariant
                    q <= successors@.len(),
                    n < n_max,
                    self.wf(),
                    view == self.trellis@,
                    w == view.weights,
                    t == view.threshold,
                    n_max == view.n_max,
                    len == (n_max - n) as nat,
                    budget == t - current_wl,
                    0 <= weight_idx < w.len(),
                    next_level == current_wl + w[weight_idx as int],
                    next_level <= t,
                    reachable(w, current_wl as int),
                    is_successor_list(w, t, current_wl as int, successors@),
                    syms == symbols_in(successors@),
                    syms.contains(weight_idx as int),
                    branches == fwd_branches(w, len, budget),
                    !done ==> forall|p: int| 0 <= p < q ==> syms[p] != weight_idx,
                    done ==> q < successors@.len() && syms[q as int] == weight_idx,
                    int_val(index) == start + seq_sum(picked(branches, syms.take(q as int))),
                decreases successors@.len() - q + (if done { 0int } else { 1int }),
            {
                let (w_idx, next_wl) = successors[q];
                proof {
                    assert(successors@[q as int].0 == w_idx);
                    assert(syms[q as int] == w_idx);
                }
                if next_wl <= next_level && w_idx != weight_idx {
                    proof {
                        lemma_reachable_step(w, current_wl as int, w_idx as int);
                        assert(view.has_level(next_wl as int));
                        view.lemma_level_index(next_wl as int);
                        assert(picked(branches, syms.take(q + 1)) =~= picked(
                            branches,
                            syms.take(q as int),
                        ).push(branches[w_idx as int]));
                        lemma_sum_push(picked(branches, syms.take(q as int)), branches[w_idx as int]);
                    }
                    let below = self.trellis.get(n + 1, next_wl);
                    index = big_add(&index, &below);
                    q += 1;
                } else {
                    proof {
                        if w_idx != weight_idx {
                            // A heavier successor stands here, so the symbol
                            // taken would have to stand ahead of it.
                            let p = choose|p: int| 0 <= p < syms.len() && syms[p] == weight_idx;
                            if p > q {
                                assert(crate::counting::precedes(w, syms[q as int], syms[p]));
                            }
                            assert(false);
                        }
                    }
                    done = true;
                }
            }
            proof {
                if !done {
                    let p = choose|p: int| 0 <= p < syms.len() && syms[p] == weight_idx;
                    assert(false);
                }
                lemma_block_start_of_listed(branches, symbol_before(w), syms, q as int);
                assert(s.skip(n as int).drop_first() =~= s.skip(n + 1));
                assert(s.skip(n as int)[0] == weight_idx);
                assert(s.skip(n as int).len() == len);
                lemma_reachable_step(w, current_wl as int, weight_idx as int);
            }
            current_wl = next_level;
            n += 1;
        }
        proof {
            assert(s.skip(n as int) =~= Seq::<int>::empty());
        }
        index
    }

    /// Returns a reverse trellis with the given parameters
    ///
    /// A reverse trellis is a trellis like the ESS trellis but trellis values are calculated in
    /// the reversed direction, i.e., not from last stage to first but starting at the first stage.
    ///
    /// The trellis is calculated with `n_max` stages using the weights `weights` and holds
    /// sequences with a sum weight up to `threshold`.
    pub fn calc_reverse_trellis(threshold: usize, n_max: usize, weights: &[usize]) -> (r: Result<
        Trellis,
        ShapingError,
    >)
        ensures
            r is Ok <==> valid_config(weights@, threshold, n_max),
            r matches Err(e) ==> e == ShapingError::InvalidConfiguration,
            r matches Ok(t) ==> t.wf() && t@.threshold == threshold && t@.n_max == n_max
                && t@.weights == weights@ && t@.num_levels == t@.levels.len()
                && holds_reverse_counts(t@),
    {
        let mut rev_trellis = match Trellis::new(threshold, n_max, weights) {
            Ok(trellis) => trellis,
            Err(e) => {
                return Err(e);
            },
        };
        let ghost shape = rev_trellis@;
        let ghost w = shape.weights;
        proof {
            assert(shape.levels[0] == 0);
            assert(shape.has_level(0));
            shape.lemma_level_index(0);
            lemma_level_position(shape.levels, 0, shape.level_index(0));
        }
        rev_trellis.set(0, 0, big_from(1));
        let weight_levels = rev_trellis.get_weight_levels();
        proof {
            let first = rev_trellis@;
            assert forall|stage: int, c: int|
                0 <= stage <= 0 && stage <= first.n_max && 0 <= c < first.num_levels implies #[trigger] first.values[stage][c]
                == rev_count(first.weights, stage as nat, first.levels[c] as int) by {
                if c != 0 {
                    assert(first.values[0][c] == shape.values[0][c]);
                    lemma_level_position(shape.levels, 0, c);
                }
            }
        }
        let mut n: usize = 0;
        while n < n_max
            invariant
                n <= n_max,
                n_max == shape.n_max,
                w == shape.weights,
                weight_levels@ == shape.levels,
                shape.num_levels == shape.levels.len(),
                rev_trellis.wf(),
                rev_trellis@.same_shape(shape),
                holds_reverse_counts_upto(rev_trellis@, n as int),
            decreases n_max - n,
        {
            let mut c: usize = 0;
            while c < weight_levels.len()
                invariant
                    c <= weight_levels@.len(),
                    n < n_max,
                    n_max == shape.n_max,
                    w == shape.weights,
                    weight_levels@ == shape.levels,
                    shape.num_levels == shape.levels.len(),
                    rev_trellis.wf(),
                    rev_trellis@.same_shape(shape),
                    holds_reverse_counts_upto(rev_trellis@, n as int),
                    forall|d: int|
                        0 <= d < c ==> #[trigger] rev_trellis@.values[n + 1][d] == rev_count(
                            w,
                            (n + 1) as nat,
                            shape.levels[d] as int,
                        ),
                decreases weight_levels@.len() - c,
            {
                let wl: usize = weight_levels[c];
                let predecessors = rev_trellis.get_predecessors(wl);
                let ghost syms = symbols_in(predecessors@);
                let ghost before = rev_trellis@;
                let ghost branches = rev_branches(w, (n + 1) as nat, wl as int);
                let mut total = big_from(0);
                let mut q: usize = 0;
                proof {
                    assert(picked(branches, syms.take(0)) =~= Seq::<int>::empty());
                    before.lemma_level_index(wl as int);
                    lemma_level_position(shape.levels, c as int, before.level_index(wl as int));
                }
                while q < predecessors.len()
                    invariant
                        q <= predecessors@.len(),
                        n < n_max,
                        n_max == shape.n_max,
                        w == shape.weights,
                        shape.num_levels == shape.levels.len(),
                        rev_trellis.wf(),
                        rev_trellis@ == before,
                        before.same_shape(shape),
                        holds_reverse_counts_upto(before, n as int),
                        is_predecessor_list(w, shape.levels, wl as int, predecessors@),
                        syms == symbols_in(predecessors@),
                        branches == rev_branches(w, (n + 1) as nat, wl as int),
                        int_val(total) == seq_sum(picked(branches, syms.take(q as int))),
                    decreases predecessors@.len() - q,
                {
                    let (weight_index, predecessor_wl) = predecessors[q];
                    proof {
                        assert(predecessors@[q as int].0 == weight_index);
                        assert(syms[q as int] == weight_index);
                        assert(picked(branches, syms.take(q + 1)) =~= picked(
                            branches,
                            syms.take(q as int),
                        ).push(branches[weight_index as int]));
                        lemma_sum_push(
                            picked(branches, syms.take(q as int)),
                            branches[weight_index as int],
                        );
                        assert(before.has_level(predecessor_wl as int));
                        before.lemma_level_index(predecessor_wl as int);
                    }
                    let reaching = rev_trellis.get(n, predecessor_wl);
                    total = big_add(&total, &reaching);
                    q += 1;
                }
                proof {
                    assert(syms.take(q as int) =~= syms);
                    lemma_predecessor_symbols(w, shape.levels, wl as int, predecessors@);
                    assert forall|j: int|
                        0 <= j < branches.len() && !syms.contains(j) implies #[trigger] branches[j]
                        == 0 by {
                        if branches[j] != 0 {
                            lemma_rev_count_reachable(w, n as nat, wl - w[j]);
                            crate::counting::lemma_reachable_nonneg(w, wl - w[j]);
                            lemma_level_position(shape.levels, c as int, shape.levels.len() - 1);
                            assert(lists(shape.levels, wl - w[j]));
                        }
                    }
                    lemma_sum_picked(branches, syms);
                    lemma_rev_count_unfold(w, (n + 1) as nat, wl as int);
                }
                rev_trellis.set(n + 1, wl, total);
                proof {
                    let after = rev_trellis@;
                    assert forall|stage: int, d: int|
                        0 <= stage <= n && stage <= after.n_max && 0 <= d < after.num_levels implies #[trigger] after.values[stage][d]
                        == rev_count(after.weights, stage as nat, after.levels[d] as int) by {
                        assert(after.values[stage][d] == before.values[stage][d]);
                    }
                    assert forall|d: int| 0 <= d < c + 1 implies #[trigger] after.values[n + 1][d]
                        == rev_count(w, (n + 1) as nat, shape.levels[d] as int) by {
                        if d < c {
                            assert(after.values[n + 1][d] == before.values[n + 1][d]);
                        }
                    }
                }
                c += 1;
            }
            n += 1;
        }
        Ok(rev_trellis)
    }

    /// Returns the reverse trellis for this [AdEss]
    pub fn reverse_trellis(&self) -> (t: Trellis)
        requires
            self.wf(),
        ensures
            t.wf(),
            t@.same_shape(self.trellis@),
            holds_reverse_counts(t@),
    {
        let weights = self.trellis.get_weights();
        match AdEss::calc_reverse_trellis(
            self.trellis.threshold(),
            self.trellis.n_max(),
            weights.as_slice(),
        ) {
            Ok(t) => {
                proof {
                    lemma_same_levels(t@, self.trellis@);
                }
                t
            },
            Err(_) => vstd::pervasive::unreached(),
        }
    }
}

/// Two complete trellises with the same weights and threshold have the same
/// weight levels.
pub proof fn lemma_same_levels(a: TrellisView, b: TrellisView)
    requires
        a.valid(),
        b.valid(),
        a.weights == b.weights,
        a.threshold == b.threshold,
        a.num_levels == a.levels.len(),
        b.num_levels == b.levels.len(),
    ensures
        a.levels == b.levels,
{
    lemma_same_levels_upto(a, b, a.levels.len() as int);
    lemma_same_levels_upto(b, a, b.levels.len() as int);
    if a.levels.len() < b.levels.len() {
        lemma_same_levels_upto(b, a, (a.levels.len() + 1) as int);
    } else if b.levels.len() < a.levels.len() {
        lemma_same_levels_upto(a, b, (b.levels.len() + 1) as int);
    }
    assert(a.levels =~= b.levels);
}

proof fn lemma_same_levels_upto(a: TrellisView, b: TrellisView, k: int)
    requires
        a.valid(),
        b.valid(),
        a.weights == b.weights,
        a.threshold == b.threshold,
        a.num_levels == a.levels.len(),
        b.num_levels == b.levels.len(),
        0 <= k <= a.levels.len(),
    ensures
        k <= b.levels.len(),
        forall|c: int| 0 <= c < k ==> a.levels[c] == b.levels[c],
    decreases k,
{
    if k > 0 {
        lemma_same_levels_upto(a, b, k - 1);
        let v = a.levels[k - 1] as int;
        // The level is one of `b`, and stands there behind the earlier ones.
        assert(a.has_level(v));
        assert(0 <= v <= a.threshold && reachable(a.weights, v));
        assert(b.has_level(v));
        let d = choose|d: int| 0 <= d < b.num_levels && d < b.levels.len() && b.levels[d] == v;
        if d < k - 1 {
            lemma_level_position(a.levels, d, k - 1);
        }
        if d > k - 1 {
            // Then `b` holds a level at place `k - 1` that `a` lacks there.
            let u = b.levels[k - 1] as int;
            lemma_level_position(b.levels, k - 1, d);
            assert(b.has_level(u));
            assert(0 <= u <= b.threshold && reachable(b.weights, u));
            assert(a.has_level(u));
            let e = choose|e: int| 0 <= e < a.num_levels && e < a.levels.len() && a.levels[e] == u;
            lemma_level_position(a.levels, e, k - 1);
            if e < k - 1 {
                lemma_level_position(b.levels, e, k - 1);
            }
            assert(false);
        }
    }
}

} // verus!
