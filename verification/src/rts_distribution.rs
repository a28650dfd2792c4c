//! The amplitude distribution of the energy-ordered code when only the first
//! two-to-the-power-of-its-bits sequences are used.

use crate::amplitudes::{is_amplitudes_of, symbol_of, symbols_of};
use crate::bigint::{big_add, big_eq, big_from, big_mul_small, big_pow, int_val};
use crate::bits::{bits_of, lemma_bits_exist, lemma_bits_of};
use crate::counting::{
    is_symbols, is_weight, lemma_level_position, lemma_no_level_between, lemma_reachable_nonneg,
    lemma_rev_count_reachable, lemma_rev_rank_within_range, lemma_rev_total_gap,
    lemma_rev_total_positive, lemma_rev_unrank, lemma_symbol_orders, lemma_total_below_level,
    lemma_unreachable_below, lemma_weight_nonneg, lemma_weight_split, lists, precedes, reachable,
    rev_below, rev_branches, rev_count, rev_rank_within, rev_total, rev_unrank, rev_valid,
    symbol_after, weight_of,
};
use crate::distribution::AmplitudeDistribution;
use crate::occurrences::{
    lemma_rev_occurrences_ahead, lemma_rev_occurrences_by_level, lemma_rev_occurrences_full,
    rev_occurrences, rev_occurrences_within,
};
use crate::rts::RTS;
use crate::sums::{lemma_block_start_of_listed, lemma_sum_push, picked, seq_sum};
use crate::trellis::{is_predecessor_list, lemma_predecessor_symbols, symbols_in};
use crate::trellis_utils::amplitude_weight_path;
use rug::Integer;
use vstd::arithmetic::power2::{lemma_pow2, lemma_pow2_pos, pow2};
use vstd::prelude::*;

verus! {

/// The number of occurrences of symbol `a`, over the first `stages` stages,
/// among the sequences at the places `0 .. places`.
pub open spec fn rev_symbol_total(w: Seq<usize>, len: nat, places: int, a: int, stages: nat) -> int
    decreases stages,
{
    if stages == 0 {
        0
    } else {
        rev_symbol_total(w, len, places, a, (stages - 1) as nat) + rev_occurrences(
            w,
            len,
            places,
            stages - 1,
            a,
        )
    }
}

/// Where a symbol occurs equally often at every stage, it occurs that often
/// times the number of stages in all.
pub proof fn lemma_rev_symbol_total_even(
    w: Seq<usize>,
    len: nat,
    places: int,
    a: int,
    stages: nat,
    each: int,
)
    requires
        forall|p: int| 0 <= p < stages ==> #[trigger] rev_occurrences(w, len, places, p, a) == each,
    ensures
        rev_symbol_total(w, len, places, a, stages) == stages * each,
    decreases stages,
{
    if stages > 0 {
        lemma_rev_symbol_total_even(w, len, places, a, (stages - 1) as nat, each);
        assert(rev_occurrences(w, len, places, stages - 1, a) == each);
        assert(stages * each == ((stages - 1) as nat) * each + each) by (nonlinear_arith)
            requires
                stages > 0,
        ;
    } else {
        assert(stages * each == 0) by (nonlinear_arith)
            requires
                stages == 0,
        ;
    }
}

impl RTS {
    /// The number of sequences that are used: the largest power of two that
    /// is at most the number of sequences.
    pub open spec fn spec_num_used(&self) -> int {
        pow2(bits_of(self.spec_num_sequences())) as int
    }

    /// For each symbol, the number of its occurrences over all stages among
    /// the sequences that are used.
    pub open spec fn spec_amplitude_counts(&self) -> Seq<int> {
        Seq::new(
            self.trellis@.weights.len(),
            |a: int|
                rev_symbol_total(
                    self.trellis@.weights,
                    self.trellis@.n_max as nat,
                    self.spec_num_used(),
                    a,
                    self.trellis@.n_max as nat,
                ),
        )
    }

    /// For each symbol, the number of its occurrences at one stage, whichever
    /// it is, among all sequences of the code.
    pub open spec fn spec_amplitude_counts_full_utilization(&self) -> Seq<int> {
        Seq::new(
            self.trellis@.weights.len(),
            |a: int|
                rev_total(
                    self.trellis@.weights,
                    (self.trellis@.n_max - 1) as nat,
                    self.trellis@.threshold - self.trellis@.weights[a],
                ),
        )
    }

    /// The path count at `stage` of the node that lies `extra` below the
    /// weight level `wl`, 0 if there is no such node.
    fn count_at(&self, stage: usize, wl: usize, extra: usize) -> (value: Integer)
        requires
            self.wf(),
            stage <= self.trellis@.n_max,
            wl <= self.trellis@.threshold,
        ensures
            int_val(value) == rev_count(self.trellis@.weights, stage as nat, wl - extra),
    {
        let ghost view = self.trellis@;
        if wl < extra {
            return big_from(0);
        }
        proof {
            let node = wl - extra;
            if view.has_level(node) {
                view.lemma_level_index(node);
            } else if rev_count(view.weights, stage as nat, node) != 0 {
                lemma_rev_count_reachable(view.weights, stage as nat, node);
                assert(false);
            }
        }
        self.trellis.get_or_0(stage, wl - extra)
    }

    /// The sum of the path counts at `stage_of_value` of the nodes that lie
    /// `extra` below the predecessors of the weight level `wl` that are
    /// scanned before the predecessor by symbol `taken`.
    fn sum_before(&self, wl: usize, taken: usize, extra: usize, stage_of_value: usize) -> (sum:
        Integer)
        requires
            self.wf(),
            stage_of_value <= self.trellis@.n_max,
            self.trellis@.has_level(wl as int),
            taken < self.trellis@.weights.len(),
            lists(self.trellis@.levels, wl - self.trellis@.weights[taken as int]),
            is_weight(self.trellis@.weights, extra as int),
        ensures
            int_val(sum) == rev_below(
                self.trellis@.weights,
                (stage_of_value + 1) as nat,
                wl - extra,
                taken as int,
            ),
    {
        let ghost view = self.trellis@;
        let ghost w = view.weights;
        let ghost len = (stage_of_value + 1) as nat;
        let ghost branches = rev_branches(w, len, wl - extra);
        let predecessors = self.trellis.get_predecessors(wl);
        let ghost syms = symbols_in(predecessors@);
        let mut sum = big_from(0);
        let mut q: usize = 0;
        let mut done: bool = false;
        proof {
            lemma_predecessor_symbols(w, view.levels, wl as int, predecessors@);
            assert(syms.contains(taken as int));
            assert(picked(branches, syms.take(0)) =~= Seq::<int>::empty());
        }
        while q < predecessors.len() && !done
            invariant
                q <= predecessors@.len(),
                self.wf(),
                view == self.trellis@,
                w == view.weights,
                stage_of_value <= view.n_max,
                len == (stage_of_value + 1) as nat,
                view.has_level(wl as int),
                taken < w.len(),
                is_weight(w, extra as int),
                is_predecessor_list(w, view.levels, wl as int, predecessors@),
                syms == symbols_in(predecessors@),
                syms.contains(taken as int),
                branches == rev_branches(w, len, wl - extra),
                !done ==> forall|p: int| 0 <= p < q ==> syms[p] != taken,
                done ==> q < predecessors@.len() && syms[q as int] == taken,
                int_val(sum) == seq_sum(picked(branches, syms.take(q as int))),
            decreases predecessors@.len() - q + (if done { 0int } else { 1int }),
        {
            let (w_idx, predecessor_wl) = predecessors[q];
            proof {
                assert(predecessors@[q as int].0 == w_idx);
                assert(syms[q as int] == w_idx);
            }
            if w_idx != taken {
                proof {
                    assert(picked(branches, syms.take(q + 1)) =~= picked(
                        branches,
                        syms.take(q as int),
                    ).push(branches[w_idx as int]));
                    lemma_sum_push(picked(branches, syms.take(q as int)), branches[w_idx as int]);
                    let c = choose|c: int|
                        0 <= c < view.num_levels && c < view.levels.len() && view.levels[c] == wl;
                    lemma_level_position(view.levels, c, view.num_levels - 1);
                }
                let value = self.count_at(stage_of_value, predecessor_wl, extra);
                sum = big_add(&sum, &value);
                q += 1;
            } else {
                done = true;
            }
        }
        proof {
            if !done {
                let p = choose|p: int| 0 <= p < syms.len() && syms[p] == taken;
                assert(false);
            }
            lemma_symbol_orders(w);
            lemma_predecessor_symbols(w, view.levels, wl as int, predecessors@);
            let c = choose|c: int|
                0 <= c < view.num_levels && c < view.levels.len() && view.levels[c] == wl;
            lemma_level_position(view.levels, c, view.levels.len() - 1);
            assert forall|j: int|
                0 <= j < branches.len() && symbol_after(w)(j, syms[q as int]) && !syms.take(
                    q as int,
                ).contains(j) implies #[trigger] branches[j] == 0 by {
                assert(precedes(w, predecessors@[q as int].0 as int, j));
                if branches[j] != 0 {
                    lemma_rev_count_reachable(w, stage_of_value as nat, wl - extra - w[j]);
                    lemma_reachable_nonneg(w, wl - extra - w[j]);
                    if !reachable(w, wl - w[j]) {
                        lemma_unreachable_below(w, wl - w[j], extra as int);
                    }
                    assert(lists(view.levels, wl - w[j]));
                    assert(symbols_in(predecessors@).take(q as int).contains(j));
                }
            }
            assert forall|p: int, r: int| 0 <= p < r < syms.len() implies symbol_after(w)(
                syms[p],
                syms[r],
            ) by {
                assert(precedes(w, syms[r], syms[p]));
            }
            lemma_block_start_of_listed(branches, symbol_after(w), syms, q as int);
        }
        sum
    }

    /// The number of sequences one stage short of the full length whose
    /// weight, with `extra` added, stays below the weight level `wl`.
    fn sum_lighter(&self, wl: usize, extra: usize) -> (sum: Integer)
        requires
            self.wf(),
            self.trellis@.n_max >= 1,
            self.trellis@.has_level(wl as int),
            is_weight(self.trellis@.weights, extra as int),
        ensures
            int_val(sum) == rev_total(
                self.trellis@.weights,
                (self.trellis@.n_max - 1) as nat,
                wl - 1 - extra,
            ),
    {
        let ghost view = self.trellis@;
        let ghost w = view.weights;
        let n_max = self.trellis.n_max();
        let weight_levels = self.trellis.get_weight_levels();
        proof {
            view.lemma_level_index(wl as int);
        }
        let columns = self.trellis.get_weight_level_index(wl);
        let mut sum = big_from(0);
        let mut c: usize = 0;
        proof {
            assert(rev_total(w, (n_max - 1) as nat, -1 - extra) == 0);
        }
        while c < columns
            invariant
                c <= columns,
                columns < view.num_levels,
                view.levels[columns as int] == wl,
                self.wf(),
                view == self.trellis@,
                w == view.weights,
                n_max == view.n_max,
                n_max >= 1,
                weight_levels@ == view.levels,
                is_weight(w, extra as int),
                int_val(sum) == rev_total(w, (n_max - 1) as nat, view.levels[c as int] - 1 - extra),
            decreases columns - c,
        {
            let lower: usize = weight_levels[c];
            proof {
                lemma_level_position(view.levels, c as int, view.num_levels - 1);
                lemma_level_position(view.levels, c as int, c + 1);
                assert forall|v: int|
                    lower - extra < v <= view.levels[c + 1] - 1 - extra implies !#[trigger] reachable(
                    w,
                    v,
                ) by {
                    lemma_no_level_between(w, view.levels, c + 1, v + extra);
                    lemma_unreachable_below(w, v + extra, extra as int);
                }
                lemma_rev_total_gap(
                    w,
                    (n_max - 1) as nat,
                    lower - extra,
                    view.levels[c + 1] - 1 - extra,
                );
                assert(rev_total(w, (n_max - 1) as nat, lower - extra) == rev_total(
                    w,
                    (n_max - 1) as nat,
                    lower - extra - 1,
                ) + rev_count(w, (n_max - 1) as nat, lower - extra)) by {
                    if lower - extra < 0 {
                        assert(rev_total(w, (n_max - 1) as nat, lower - extra) == 0);
                        assert(rev_total(w, (n_max - 1) as nat, lower - extra - 1) == 0);
                    }
                }
            }
            let value = self.count_at(n_max - 1, lower, extra);
            sum = big_add(&sum, &value);
            c += 1;
        }
        sum
    }

    /// Counts the occurrences of `amplitude` in stage `stage` among the
    /// sequences that are used, given the first sequence that is not used
    fn count_amplitude_in_stage(
        &self,
        amplitude: usize,
        stage: usize,
        first_abandoned_seq: &[usize],
    ) -> (count: Integer)
        requires
            self.wf(),
            amplitude % 2 == 1,
            symbol_of(amplitude) < self.trellis@.weights.len(),
            stage < self.trellis@.n_max,
            self.spec_num_used() < self.spec_num_sequences(),
            is_amplitudes_of(
                first_abandoned_seq@,
                rev_unrank(
                    self.trellis@.weights,
                    self.trellis@.n_max as nat,
                    self.spec_num_used(),
                ),
            ),
        ensures
            int_val(count) == rev_occurrences(
                self.trellis@.weights,
                self.trellis@.n_max as nat,
                self.spec_num_used(),
                stage as int,
                symbol_of(amplitude),
            ),
    {
        let ghost view = self.trellis@;
        let ghost w = view.weights;
        let ghost used = self.spec_num_used();
        let ghost s = rev_unrank(w, view.n_max as nat, used);
        let the_w_idx: usize = (amplitude - 1) / 2;
        let ghost a = the_w_idx as int;
        let the_weight = self.trellis.get_weight(the_w_idx);
        let the_stage = stage;
        let n_max = self.trellis.n_max();
        proof {
            self.lemma_used_is_positive();
            lemma_rev_unrank(w, n_max as nat, view.threshold as int, used);
            assert(symbols_of(first_abandoned_seq@) =~= s);
            assert forall|k: int| 0 <= k < first_abandoned_seq@.len() implies #[trigger] first_abandoned_seq@[k]
                % 2 == 1 by {
                assert(first_abandoned_seq@[k] == 2 * s[k] + 1);
            }
            lemma_weight_nonneg(w, s);
        }
        let weights = self.trellis.get_weights();
        let mut fas_w_idxs: Vec<usize> = Vec::new();
        let mut k: usize = 0;
        while k < first_abandoned_seq.len()
            invariant
                k <= first_abandoned_seq@.len(),
                fas_w_idxs@.len() == k,
                symbols_of(first_abandoned_seq@) == s,
                forall|j: int|
                    0 <= j < first_abandoned_seq@.len() ==> #[trigger] first_abandoned_seq@[j] % 2
                        == 1,
                forall|j: int| 0 <= j < k ==> #[trigger] fas_w_idxs@[j] == s[j],
            decreases first_abandoned_seq@.len() - k,
        {
            proof {
                assert(first_abandoned_seq@[k as int] % 2 == 1);
                assert(s[k as int] == symbol_of(first_abandoned_seq@[k as int]));
            }
            fas_w_idxs.push((first_abandoned_seq[k] - 1) / 2);
            k += 1;
        }
        let fas_wls = amplitude_weight_path(weights.as_slice(), first_abandoned_seq);
        proof {
            assert(s.take(n_max as int) =~= s);
            assert forall|k: int| 0 <= k <= n_max implies view.has_level(#[trigger] fas_wls@[k] as int)
                && rev_valid(w, k as nat, fas_wls@[k] as int, s.take(k)) by {
                lemma_weight_split(w, s, k);
                assert(is_symbols(w, s.take(k)));
                assert(is_symbols(w, s.skip(k)));
                lemma_weight_nonneg(w, s.skip(k));
                assert(reachable(w, weight_of(w, s.take(k))));
            }
            assert forall|k: int| 0 <= k < n_max implies #[trigger] fas_wls@[k + 1] == fas_wls@[k]
                + w[s[k]] && 0 <= s[k] < w.len() by {
                assert(s.take(k + 1).drop_last() =~= s.take(k));
            }
            // The place of the first sequence that is not used: after the
            // sequences of lower weight, at its place among those of its own.
            lemma_rev_rank_within_range(w, n_max as nat, fas_wls@[n_max as int] as int, s);
            lemma_rev_occurrences_by_level(
                w,
                n_max as nat,
                fas_wls@[n_max as int] as int,
                rev_rank_within(w, s),
                stage as int,
                a,
            );
            assert(is_weight(w, the_weight as int));
            let z = choose|i: int| 0 <= i < w.len() && w[i] == 0;
            assert(is_weight(w, 0));
        }

        // calculation is split according to the stage in which the considered sequences join the
        // first abandoned sequence (FAS)

        // sequences that never join the FAS
        let never_join = self.sum_lighter(fas_wls[n_max], the_weight);

        // sequences that join the FAS in stage `the_stage` or before
        let mut join_before = big_from(0);
        if the_w_idx == fas_w_idxs[the_stage] {
            let mut k: usize = 0;
            proof {
                assert(s.take(0) =~= Seq::<int>::empty());
            }
            while k < the_stage
                invariant
                    k <= the_stage,
                    the_stage < n_max,
                    self.wf(),
                    view == self.trellis@,
                    w == view.weights,
                    n_max == view.n_max,
                    s.len() == n_max,
                    fas_w_idxs@.len() == n_max,
                    fas_wls@.len() == n_max + 1,
                    is_weight(w, 0),
                    forall|j: int| 0 <= j < n_max ==> #[trigger] fas_w_idxs@[j] == s[j],
                    forall|j: int|
                        0 <= j <= n_max ==> view.has_level(#[trigger] fas_wls@[j] as int) && rev_valid(
                            w,
                            j as nat,
                            fas_wls@[j] as int,
                            s.take(j),
                        ),
                    forall|j: int|
                        0 <= j < n_max ==> #[trigger] fas_wls@[j + 1] == fas_wls@[j] + w[s[j]] && 0
                            <= s[j] < w.len(),
                    int_val(join_before) == rev_rank_within(w, s.take(k as int)),
                decreases the_stage - k,
            {
                proof {
                    assert(fas_wls@[k + 1] == fas_wls@[k as int] + w[s[k as int]]);
                    assert(s.take(k + 1).drop_last() =~= s.take(k as int));
                    assert(s.take(k + 1).last() == s[k as int]);
                    assert(view.has_level(fas_wls@[k + 1] as int));
                    assert(view.has_level(fas_wls@[k as int] as int));
                    assert(rev_valid(w, (k + 1) as nat, fas_wls@[k + 1] as int, s.take(k + 1)));
                    self.lemma_column_is_known(fas_wls@[k as int] as int);
                }
                let below = self.sum_before(fas_wls[k + 1], fas_w_idxs[k], 0, k);
                join_before = big_add(&join_before, &below);
                k += 1;
            }
        }

        // sequences that join the FAS in stage `the_stage` + 1
        let fas_weight: usize = self.trellis.get_weight(fas_w_idxs[the_stage]);
        proof {
            assert(fas_wls@[the_stage + 1] == fas_wls@[the_stage as int] + w[s[the_stage as int]]);
            assert(view.has_level(fas_wls@[the_stage + 1] as int));
            self.lemma_column_within_threshold(fas_wls@[the_stage + 1] as int);
        }
        let join_here = if the_weight > fas_weight
        // this condition depends on the internal ordering used by [Trellis::get_predecessors]
         || (the_weight == fas_weight && the_w_idx > fas_w_idxs[the_stage]) {
            self.count_at(the_stage, fas_wls[the_stage + 1], the_weight)
        } else {
            big_from(0)
        };
        proof {
            // What the sequences ahead of the first `the_stage + 1` symbols
            // of the FAS hold at `the_stage`.
            assert(s.take(the_stage + 1).drop_last() =~= s.take(the_stage as int));
            assert(s.take(the_stage + 1).last() == s[the_stage as int]);
            assert(rev_valid(
                w,
                (the_stage + 1) as nat,
                fas_wls@[the_stage + 1] as int,
                s.take(the_stage + 1),
            ));
            lemma_rev_occurrences_ahead(
                w,
                (the_stage + 1) as nat,
                fas_wls@[the_stage + 1] as int,
                s.take(the_stage + 1),
                the_stage as int,
                a,
            );
        }
        let joined_early = big_add(&join_before, &join_here);

        // sequences that join the FAS between stages `the_stage` + 2 and `n_max`
        let mut join_later = big_from(0);
        let mut k: usize = the_stage + 1;
        while k < n_max
            invariant
                the_stage + 1 <= k <= n_max,
                self.wf(),
                view == self.trellis@,
                w == view.weights,
                n_max == view.n_max,
                a == the_w_idx,
                0 <= a < w.len(),
                the_weight == w[a],
                is_weight(w, the_weight as int),
                s.len() == n_max,
                fas_w_idxs@.len() == n_max,
                fas_wls@.len() == n_max + 1,
                forall|j: int| 0 <= j < n_max ==> #[trigger] fas_w_idxs@[j] == s[j],
                forall|j: int|
                    0 <= j <= n_max ==> view.has_level(#[trigger] fas_wls@[j] as int) && rev_valid(
                        w,
                        j as nat,
                        fas_wls@[j] as int,
                        s.take(j),
                    ),
                forall|j: int|
                    0 <= j < n_max ==> #[trigger] fas_wls@[j + 1] == fas_wls@[j] + w[s[j]] && 0 <= s[j]
                        < w.len(),
                rev_occurrences_within(
                    w,
                    k as nat,
                    fas_wls@[k as int] as int,
                    rev_rank_within(w, s.take(k as int)),
                    the_stage as int,
                    a,
                ) == int_val(joined_early) + int_val(join_later),
            decreases n_max - k,
        {
            proof {
                assert(fas_wls@[k + 1] == fas_wls@[k as int] + w[s[k as int]]);
                assert(s.take(k + 1).drop_last() =~= s.take(k as int));
                assert(s.take(k + 1).last() == s[k as int]);
                assert(view.has_level(fas_wls@[k + 1] as int));
                assert(rev_valid(w, (k + 1) as nat, fas_wls@[k + 1] as int, s.take(k + 1)));
                self.lemma_column_is_known(fas_wls@[k as int] as int);
                lemma_rev_occurrences_ahead(
                    w,
                    (k + 1) as nat,
                    fas_wls@[k + 1] as int,
                    s.take(k + 1),
                    the_stage as int,
                    a,
                );
            }
            let below = self.sum_before(fas_wls[k + 1], fas_w_idxs[k], the_weight, k - 1);
            join_later = big_add(&join_later, &below);
            k += 1;
        }
        let joined = big_add(&joined_early, &join_later);
        big_add(&never_join, &joined)
    }

    /// Two to the power of the number of bits is at least 1.
    proof fn lemma_used_is_positive(&self)
        ensures
            self.spec_num_used() >= 1,
    {
        lemma_pow2_pos(bits_of(self.spec_num_sequences()));
    }

    /// A weight level with a column is one that the trellis knows.
    proof fn lemma_column_is_known(&self, wl: int)
        requires
            self.wf(),
            self.trellis@.has_level(wl),
        ensures
            lists(self.trellis@.levels, wl),
    {
    }

    /// A weight level with a column lies within the threshold.
    proof fn lemma_column_within_threshold(&self, wl: int)
        requires
            self.wf(),
            self.trellis@.has_level(wl),
        ensures
            0 <= wl <= self.trellis@.threshold,
    {
    }

    /// Returns the amplitude distribution
    ///
    /// The amplitude distribution is valid if only sequences with indexes
    /// representable with [self.num_bits] bits are used: it counts the
    /// occurrences of each amplitude over all stages of these sequences.
    pub fn amplitude_distribution(&self) -> (d: AmplitudeDistribution)
        requires
            self.wf(),
            self.trellis@.n_max >= 1,
        ensures
            d.spec_counts() == self.spec_amplitude_counts(),
            int_val(d.total) == self.spec_num_used() * self.trellis@.n_max,
    {
        let ghost view = self.trellis@;
        let ghost w = view.weights;
        let ghost used = self.spec_num_used();
        let num_bits = self.num_bits();
        proof {
            lemma_bits_of(self.spec_num_sequences(), num_bits as nat);
            lemma_pow2(num_bits as nat);
            lemma_pow2_pos(num_bits as nat);
        }
        let num_sequences_used = big_pow(2, num_bits);
        let n_max = self.trellis.n_max();
        let total = big_mul_small(&num_sequences_used, n_max);
        if big_eq(&num_sequences_used, &self.num_sequences()) {
            let full = self.amplitude_distribution_full_utilization();
            let mut counts: Vec<Integer> = Vec::new();
            let mut a: usize = 0;
            proof {
                assert(full.spec_counts().len() == w.len());
            }
            while a < full.counts.len()
                invariant
                    a <= full.counts@.len(),
                    full.counts@.len() == w.len(),
                    self.wf(),
                    view == self.trellis@,
                    w == view.weights,
                    n_max == view.n_max,
                    n_max >= 1,
                    used == self.spec_num_used(),
                    used == self.spec_num_sequences(),
                    full.spec_counts() == self.spec_amplitude_counts_full_utilization(),
                    counts@.len() == a,
                    forall|b: int|
                        0 <= b < a ==> int_val(#[trigger] counts@[b]) == self.spec_amplitude_counts()[b],
                decreases full.counts@.len() - a,
            {
                proof {
                    let each = full.spec_counts()[a as int];
                    assert(each == int_val(full.counts@[a as int]));
                    assert forall|p: int| 0 <= p < n_max implies #[trigger] rev_occurrences(
                        w,
                        n_max as nat,
                        used,
                        p,
                        a as int,
                    ) == each by {
                        self.lemma_occurrences_full_utilization(p, a as int);
                    }
                    lemma_rev_symbol_total_even(w, n_max as nat, used, a as int, n_max as nat, each);
                    assert(n_max * each == each * n_max) by (nonlinear_arith);
                }
                counts.push(big_mul_small(&full.counts[a], n_max));
                a += 1;
            }
            let d = AmplitudeDistribution { counts, total };
            proof {
                assert(d.spec_counts() =~= self.spec_amplitude_counts());
            }
            return d;
        }
        let first_abandoned_seq = match self.sequence_for_index(&num_sequences_used) {
            Ok(sequence) => sequence,
            Err(_) => vstd::pervasive::unreached(),
        };
        let num_weights = self.trellis.get_weights().len();
        let mut counts: Vec<Integer> = Vec::new();
        let mut weight_idx: usize = 0;
        while weight_idx < num_weights
            invariant
                weight_idx <= num_weights,
                num_weights == w.len(),
                self.wf(),
                view == self.trellis@,
                w == view.weights,
                n_max == view.n_max,
                used == self.spec_num_used(),
                used < self.spec_num_sequences(),
                is_amplitudes_of(first_abandoned_seq@, rev_unrank(w, n_max as nat, used)),
                counts@.len() == weight_idx,
                forall|b: int|
                    0 <= b < weight_idx ==> int_val(#[trigger] counts@[b])
                        == self.spec_amplitude_counts()[b],
            decreases num_weights - weight_idx,
        {
            let amplitude: usize = weight_idx * 2 + 1;
            let mut amplitude_count = big_from(0);
            let mut stage: usize = 0;
            while stage < n_max
                invariant
                    stage <= n_max,
                    weight_idx < w.len(),
                    amplitude == 2 * weight_idx + 1,
                    self.wf(),
                    view == self.trellis@,
                    w == view.weights,
                    n_max == view.n_max,
                    used == self.spec_num_used(),
                    used < self.spec_num_sequences(),
                    is_amplitudes_of(first_abandoned_seq@, rev_unrank(w, n_max as nat, used)),
                    int_val(amplitude_count) == rev_symbol_total(
                        w,
                        n_max as nat,
                        used,
                        weight_idx as int,
                        stage as nat,
                    ),
                decreases n_max - stage,
            {
                let in_stage = self.count_amplitude_in_stage(
                    amplitude,
                    stage,
                    first_abandoned_seq.as_slice(),
                );
                amplitude_count = big_add(&amplitude_count, &in_stage);
                stage += 1;
            }
            counts.push(amplitude_count);
            weight_idx += 1;
        }
        let d = AmplitudeDistribution { counts, total };
        proof {
            assert(d.spec_counts() =~= self.spec_amplitude_counts());
        }
        d
    }

    /// Among all sequences of the code, a symbol stands at every stage as
    /// often as there are sequences one stage shorter that leave room for it
    /// within the threshold.
    pub proof fn lemma_occurrences_full_utilization(&self, pos: int, a: int)
        requires
            self.wf(),
            0 <= pos < self.trellis@.n_max,
            0 <= a < self.trellis@.weights.len(),
        ensures
            rev_occurrences(
                self.trellis@.weights,
                self.trellis@.n_max as nat,
                self.spec_num_sequences(),
                pos,
                a,
            ) == rev_total(
                self.trellis@.weights,
                (self.trellis@.n_max - 1) as nat,
                self.trellis@.threshold - self.trellis@.weights[a],
            ),
    {
        let view = self.trellis@;
        let w = view.weights;
        let t = view.threshold as int;
        let n = view.n_max as nat;
        crate::counting::lemma_rev_count_nonneg(w, n, t);
        lemma_rev_occurrences_by_level(w, n, t, rev_count(w, n, t), pos, a);
        lemma_rev_occurrences_full(w, n, t, pos, a);
        if t - w[a] < 0 {
            assert(rev_total(w, (n - 1) as nat, t - w[a]) == 0);
            assert(rev_total(w, (n - 1) as nat, t - 1 - w[a]) == 0);
        }
    }

    /// Returns the amplitude distribution
    ///
    /// The amplitude distribution is valid if all sequences in the trellis
    /// are used equiprobably: it counts the occurrences of each amplitude at
    /// one stage of all sequences, which are the same at every stage.
    pub fn amplitude_distribution_full_utilization(&self) -> (d: AmplitudeDistribution)
        requires
            self.wf(),
            self.trellis@.n_max >= 1,
        ensures
            d.spec_counts() == self.spec_amplitude_counts_full_utilization(),
            int_val(d.total) == self.spec_num_sequences(),
    {
        let ghost view = self.trellis@;
        let ghost w = view.weights;
        let n_max = self.trellis.n_max();
        let weight_levels = self.trellis.get_weight_levels();
        let columns = self.trellis.get_num_weight_levels();
        let threshold = self.trellis.threshold();
        let num_sequences = self.num_sequences();
        let weights = self.trellis.get_weights();
        let mut counts: Vec<Integer> = Vec::new();
        let mut a: usize = 0;
        while a < weights.len()
            invariant
                a <= weights@.len(),
                weights@ == w,
                self.wf(),
                view == self.trellis@,
                w == view.weights,
                n_max == view.n_max,
                n_max >= 1,
                threshold == view.threshold,
                columns == view.num_levels,
                weight_levels@ == view.levels,
                counts@.len() == a,
                forall|b: int|
                    0 <= b < a ==> int_val(#[trigger] counts@[b]) == rev_total(
                        w,
                        (n_max - 1) as nat,
                        threshold - w[b],
                    ),
            decreases weights@.len() - a,
        {
            let weight: usize = weights[a];
            let mut num_weight_occurrences = big_from(0);
            let mut c: usize = 0;
            while c < columns && weight <= threshold && weight_levels[c] <= threshold - weight
                invariant
                    c <= columns,
                    self.wf(),
                    view == self.trellis@,
                    w == view.weights,
                    n_max == view.n_max,
                    n_max >= 1,
                    threshold == view.threshold,
                    columns == view.num_levels,
                    weight_levels@ == view.levels,
                    c == 0 ==> int_val(num_weight_occurrences) == 0,
                    c > 0 ==> int_val(num_weight_occurrences) == rev_total(
                        w,
                        (n_max - 1) as nat,
                        view.levels[c - 1] as int,
                    ) && view.levels[c - 1] + weight <= threshold,
                decreases columns - c,
            {
                proof {
                    lemma_total_below_level(w, (n_max - 1) as nat, view.levels, c as int);
                    assert(view.has_level(view.levels[c as int] as int));
                    view.lemma_level_index(view.levels[c as int] as int);
                    lemma_level_position(
                        view.levels,
                        c as int,
                        view.level_index(view.levels[c as int] as int),
                    );
                }
                let value = self.trellis.get(n_max - 1, weight_levels[c]);
                proof {
                    assert(view.values[n_max - 1][c as int] == rev_count(
                        w,
                        (n_max - 1) as nat,
                        view.levels[c as int] as int,
                    ));
                }
                num_weight_occurrences = big_add(&num_weight_occurrences, &value);
                c += 1;
            }
            proof {
                let bound = threshold - weight;
                if weight > threshold {
                    assert(rev_total(w, (n_max - 1) as nat, bound) == 0);
                } else {
                    assert(view.levels[0] == 0);
                    assert(c > 0);
                    assert forall|v: int| view.levels[c - 1] < v <= bound implies !#[trigger] reachable(
                        w,
                        v,
                    ) by {
                        if reachable(w, v) {
                            assert(view.has_level(v));
                            let d = choose|d: int|
                                0 <= d < view.num_levels && d < view.levels.len() && view.levels[d] == v;
                            lemma_level_position(view.levels, d, c - 1);
                            if c < columns {
                                lemma_level_position(view.levels, d, c as int);
                            }
                        }
                    }
                    lemma_rev_total_gap(w, (n_max - 1) as nat, view.levels[c - 1] as int, bound);
                }
            }
            counts.push(num_weight_occurrences);
            a += 1;
        }
        let d = AmplitudeDistribution { counts, total: num_sequences };
        proof {
            assert(d.spec_counts() =~= self.spec_amplitude_counts_full_utilization());
        }
        d
    }
}

impl RTS {
    /// The sequences that are used are some of the sequences of the code,
    /// and one at least.
    pub proof fn lemma_num_used(&self)
        requires
            self.wf(),
        ensures
            1 <= self.spec_num_used() <= self.spec_num_sequences(),
    {
        let view = self.trellis@;
        let n = self.spec_num_sequences();
        lemma_rev_total_positive(view.weights, view.n_max as nat, view.threshold as int);
        lemma_bits_exist(n);
        vstd::arithmetic::power2::lemma_pow2_pos(bits_of(n));
    }
}

} // verus!
