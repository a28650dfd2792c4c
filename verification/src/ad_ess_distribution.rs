//! The amplitude distribution of the threshold-bounded code when only the
//! first two-to-the-power-of-its-bits sequences are used.

use crate::ad_ess::AdEss;
use crate::amplitudes::{symbol_of, symbols_of};
use crate::bigint::{big_add, big_eq, big_from, big_mul_small, big_pow, int_val};
use crate::bits::{bits_of, lemma_bits_exist, lemma_bits_of};
use crate::counting::{
    fwd_below, fwd_branches, fwd_count, fwd_rank, fwd_unrank, fwd_valid, is_symbols, is_weight,
    lemma_fwd_unrank, lemma_reachable_step, lemma_symbol_orders, lemma_weight_nonneg,
    lemma_weight_split, precedes, reachable, symbol_before, weight_of,
};
use crate::distribution::AmplitudeDistribution;
use crate::occurrences::{fwd_occurrences, lemma_fwd_occurrences_ahead, lemma_fwd_occurrences_full};
use crate::sums::{lemma_block_start_of_listed, lemma_sum_push, picked, seq_sum};
use crate::trellis::{is_successor_list, lemma_successor_symbols, symbols_in};
use crate::trellis_utils::amplitude_weight_path;
use rug::Integer;
use vstd::arithmetic::power2::{lemma_pow2, lemma_pow2_pos, pow2};
use vstd::prelude::*;

verus! {

/// The number of occurrences of symbol `a`, over the first `stages` stages,
/// among the sequences at the places `0 .. places`.
pub open spec fn fwd_symbol_total(
    w: Seq<usize>,
    len: nat,
    budget: int,
    places: int,
    a: int,
    stages: nat,
) -> int
    decreases stages,
{
    if stages == 0 {
        0
    } else {
        fwd_symbol_total(w, len, budget, places, a, (stages - 1) as nat) + fwd_occurrences(
            w,
            len,
            budget,
            places,
            stages - 1,
            a,
        )
    }
}

impl AdEss {
    /// The number of sequences that are used: the largest power of two that
    /// is at most the number of sequences.
    pub open spec fn spec_num_used(&self) -> int {
        pow2(bits_of(self.spec_num_sequences())) as int
    }

    /// The sum of the path counts at `stage_of_value` of the nodes that lie
    /// `extra` above the successors of the weight level `wl` that are scanned
    /// before the successor by symbol `taken`.
    fn sum_before(&self, wl: usize, taken: usize, extra: usize, stage_of_value: usize) -> (sum:
        Integer)
        requires
            self.wf(),
            1 <= stage_of_value <= self.trellis@.n_max,
            reachable(self.trellis@.weights, wl as int),
            taken < self.trellis@.weights.len(),
            wl + self.trellis@.weights[taken as int] <= self.trellis@.threshold,
            is_weight(self.trellis@.weights, extra as int),
        ensures
            int_val(sum) == fwd_below(
                self.trellis@.weights,
                (self.trellis@.n_max - stage_of_value + 1) as nat,
                self.trellis@.threshold - wl - extra,
                taken as int,
            ),
    {
        let ghost view = self.trellis@;
        let ghost w = view.weights;
        let ghost t = view.threshold as int;
        let ghost len = (view.n_max - stage_of_value + 1) as nat;
        let ghost branches = fwd_branches(w, len, t - wl - extra);
        let successors = self.trellis.get_successors(wl);
        let ghost syms = symbols_in(successors@);
        let mut sum = big_from(0);
        let mut q: usize = 0;
        let mut done: bool = false;
        proof {
            lemma_successor_symbols(w, t, wl as int, successors@);
            assert(syms.contains(taken as int));
            assert(picked(branches, syms.take(0)) =~= Seq::<int>::empty());
        }
        while q < successors.len() && !done
            invariant
                q <= successors@.len(),
                self.wf(),
                view == self.trellis@,
                w == view.weights,
                t == view.threshold,
                1 <= stage_of_value <= view.n_max,
                len == (view.n_max - stage_of_value + 1) as nat,
                reachable(w, wl as int),
                taken < w.len(),
                is_weight(w, extra as int),
                is_successor_list(w, t, wl as int, successors@),
                syms == symbols_in(successors@),
                syms.contains(taken as int),
                branches == fwd_branches(w, len, t - wl - extra),
                !done ==> forall|p: int| 0 <= p < q ==> syms[p] != taken,
                done ==> q < successors@.len() && syms[q as int] == taken,
                int_val(sum) == seq_sum(picked(branches, syms.take(q as int))),
            decreases successors@.len() - q + (if done { 0int } else { 1int }),
        {
            let (w_idx, next_wl) = successors[q];
            proof {
                assert(successors@[q as int].0 == w_idx);
                assert(syms[q as int] == w_idx);
            }
            if w_idx != taken {
                proof {
                    lemma_reachable_step(w, wl as int, w_idx as int);
                    assert(picked(branches, syms.take(q + 1)) =~= picked(
                        branches,
                        syms.take(q as int),
                    ).push(branches[w_idx as int]));
                    lemma_sum_push(picked(branches, syms.take(q as int)), branches[w_idx as int]);
                }
                let value = self.count_at(stage_of_value, next_wl, extra);
                sum = big_add(&sum, &value);
                q += 1;
            } else {
                done = true;
            }
        }
        proof {
            if !done {
                let p = choose|p: int| 0 <= p < syms.len() && syms[p] == taken;
                assert(false);
            }
            lemma_symbol_orders(w);
            lemma_successor_symbols(w, t, wl as int, successors@);
            assert forall|j: int|
                0 <= j < branches.len() && symbol_before(w)(j, syms[q as int]) && !syms.take(
                    q as int,
                ).contains(j) implies #[trigger] branches[j] == 0 by {
                assert(precedes(w, j, successors@[q as int].0 as int));
                assert(symbols_in(successors@).take(q as int).contains(j));
            }
            lemma_block_start_of_listed(branches, symbol_before(w), syms, q as int);
        }
        sum
    }

    /// The path count at `stage` of the node that lies `extra` above the
    /// weight level `wl`, 0 if there is no such node within the threshold.
    fn count_at(&self, stage: usize, wl: usize, extra: usize) -> (value: Integer)
        requires
            self.wf(),
            stage <= self.trellis@.n_max,
            reachable(self.trellis@.weights, wl as int),
            is_weight(self.trellis@.weights, extra as int),
        ensures
            int_val(value) == fwd_count(
                self.trellis@.weights,
                (self.trellis@.n_max - stage) as nat,
                self.trellis@.threshold - wl - extra,
            ),
    {
        let ghost view = self.trellis@;
        match wl.checked_add(extra) {
            Some(node) => {
                proof {
                    let j = choose|j: int| 0 <= j < view.weights.len() && view.weights[j] == extra;
                    lemma_reachable_step(view.weights, wl as int, j);
                    if view.has_level(node as int) {
                        view.lemma_level_index(node as int);
                    }
                }
                self.trellis.get_or_0(stage, node)
            },
            None => big_from(0),
        }
    }

    /// The first sequence that is not used, its symbols and the weight levels
    /// that it passes.
    fn first_abandoned(&self) -> (r: (Vec<usize>, Vec<usize>))
        requires
            self.wf(),
            self.spec_num_used() < self.spec_num_sequences(),
        ensures
            r.0@.len() == self.trellis@.n_max,
            r.1@.len() == self.trellis@.n_max + 1,
            fwd_valid(
                self.trellis@.weights,
                self.trellis@.n_max as nat,
                self.trellis@.threshold as int,
                r.0@.map_values(|i: usize| i as int),
            ),
            fwd_rank(
                self.trellis@.weights,
                self.trellis@.threshold as int,
                r.0@.map_values(|i: usize| i as int),
            ) == self.spec_num_used(),
            forall|k: int|
                0 <= k <= self.trellis@.n_max ==> #[trigger] r.1@[k] == weight_of(
                    self.trellis@.weights,
                    r.0@.map_values(|i: usize| i as int).take(k),
                ),
    {
        let ghost view = self.trellis@;
        let ghost w = view.weights;
        let ghost t = view.threshold as int;
        let num_bits = self.num_bits();
        proof {
            lemma_bits_of(self.spec_num_sequences(), num_bits as nat);
            lemma_pow2(num_bits as nat);
        }
        let num_sequences_used = big_pow(2, num_bits);
        let first_abandoned_sequence = match self.sequence_for_index(&num_sequences_used) {
            Ok(sequence) => sequence,
            Err(_) => {
                proof {
                    lemma_pow2_pos(num_bits as nat);
                }
                vstd::pervasive::unreached()
            },
        };
        let ghost s = fwd_unrank(w, view.n_max as nat, t, self.spec_num_used());
        proof {
            lemma_pow2_pos(num_bits as nat);
            lemma_fwd_unrank(w, view.n_max as nat, t, self.spec_num_used());
            assert(symbols_of(first_abandoned_sequence@) =~= s);
            assert forall|k: int|
                0 <= k < first_abandoned_sequence@.len() implies #[trigger] first_abandoned_sequence@[k]
                % 2 == 1 by {
                assert(first_abandoned_sequence@[k] == 2 * s[k] + 1);
            }
            lemma_weight_nonneg(w, s);
        }
        let weights = self.trellis.get_weights();
        let mut fas_weight_idxs: Vec<usize> = Vec::new();
        let mut k: usize = 0;
        while k < first_abandoned_sequence.len()
            invariant
                k <= first_abandoned_sequence@.len(),
                fas_weight_idxs@.len() == k,
                symbols_of(first_abandoned_sequence@) == s,
                forall|j: int|
                    0 <= j < first_abandoned_sequence@.len() ==> #[trigger] first_abandoned_sequence@[j]
                        % 2 == 1,
                forall|j: int| 0 <= j < k ==> #[trigger] fas_weight_idxs@[j] == s[j],
            decreases first_abandoned_sequence@.len() - k,
        {
            proof {
                assert(first_abandoned_sequence@[k as int] % 2 == 1);
                assert(s[k as int] == symbol_of(first_abandoned_sequence@[k as int]));
            }
            fas_weight_idxs.push((first_abandoned_sequence[k] - 1) / 2);
            k += 1;
        }
        let fas_wls = amplitude_weight_path(weights.as_slice(), first_abandoned_sequence.as_slice());
        proof {
            assert(fas_weight_idxs@.map_values(|i: usize| i as int) =~= s);
        }
        (fas_weight_idxs, fas_wls)
    }

    /// Counts the occurrences of the amplitude associated to `weight_idx` in stage `stage`
    /// among the sequences that are used
    fn count_weight_in_stage(&self, weight_idx: usize, stage: usize) -> (count: Integer)
        requires
            self.wf(),
            weight_idx < self.trellis@.weights.len(),
            stage < self.trellis@.n_max,
            self.spec_num_used() < self.spec_num_sequences(),
        ensures
            int_val(count) == fwd_occurrences(
                self.trellis@.weights,
                self.trellis@.n_max as nat,
                self.trellis@.threshold as int,
                self.spec_num_used(),
                stage as int,
                weight_idx as int,
            ),
    {
        let ghost view = self.trellis@;
        let ghost w = view.weights;
        let ghost t = view.threshold as int;
        let ghost a = weight_idx as int;
        let ghost used = self.spec_num_used();
        let (fas_weight_idxs, fas_wls) = self.first_abandoned();
        let ghost s = fas_weight_idxs@.map_values(|i: usize| i as int);
        let n_max = self.trellis.n_max();
        let the_weight = self.trellis.get_weight(weight_idx);
        proof {
            assert(s.skip(0) =~= s);
            assert(s.take(0) =~= Seq::<int>::empty());
            assert forall|k: int| 0 <= k <= n_max implies reachable(w, #[trigger] fas_wls@[k] as int)
                && fas_wls@[k] + weight_of(w, s.skip(k)) <= t by {
                lemma_weight_split(w, s, k);
                assert(is_symbols(w, s.take(k)));
                assert(is_symbols(w, s.skip(k)));
                lemma_weight_nonneg(w, s.skip(k));
            }
        }

        // occurrences in sequences that split out of the first abandoned sequence (FAS) at
        // earlier stages
        let mut from_earlier_splits = big_from(0);
        let mut n: usize = 0;
        while n < stage
            invariant
                n <= stage,
                stage < n_max,
                self.wf(),
                view == self.trellis@,
                w == view.weights,
                t == view.threshold,
                n_max == view.n_max,
                a == weight_idx,
                0 <= a < w.len(),
                the_weight == w[a],
                s == fas_weight_idxs@.map_values(|i: usize| i as int),
                fas_weight_idxs@.len() == n_max,
                fas_wls@.len() == n_max + 1,
                fwd_valid(w, n_max as nat, t, s),
                forall|k: int| 0 <= k <= n_max ==> #[trigger] fas_wls@[k] == weight_of(w, s.take(k)),
                forall|k: int|
                    0 <= k <= n_max ==> reachable(w, #[trigger] fas_wls@[k] as int) && fas_wls@[k]
                        + weight_of(w, s.skip(k)) <= t,
                fwd_occurrences(w, n_max as nat, t, fwd_rank(w, t, s), stage as int, a) == int_val(
                    from_earlier_splits,
                ) + fwd_occurrences(
                    w,
                    (n_max - n) as nat,
                    t - fas_wls@[n as int],
                    fwd_rank(w, t - fas_wls@[n as int], s.skip(n as int)),
                    stage - n,
                    a,
                ),
            decreases stage - n,
        {
            proof {
                self.lemma_step_along(s, fas_wls@, n as int);
                lemma_fwd_occurrences_ahead(
                    w,
                    (n_max - n) as nat,
                    t - fas_wls@[n as int],
                    s.skip(n as int),
                    stage - n,
                    a,
                );
                assert(s[n as int] == fas_weight_idxs@[n as int]);
            }
            let below = self.sum_before(fas_wls[n], fas_weight_idxs[n], the_weight, n + 2);
            from_earlier_splits = big_add(&from_earlier_splits, &below);
            n += 1;
        }

        proof {
            self.lemma_step_along(s, fas_wls@, stage as int);
            lemma_fwd_occurrences_ahead(
                w,
                (n_max - stage) as nat,
                t - fas_wls@[stage as int],
                s.skip(stage as int),
                0,
                a,
            );
            assert(s[stage as int] == fas_weight_idxs@[stage as int]);
        }
        let fas_weight: usize = self.trellis.get_weight(fas_weight_idxs[stage]);

        // occurrences in sequences that split out of the FAS at this stage
        let from_split_at_stage = if the_weight < fas_weight ||
        // this condition depends on the internal ordering used by [Trellis::get_successors]
        (the_weight == fas_weight && weight_idx < fas_weight_idxs[stage]) {
            self.count_at(stage + 1, fas_wls[stage], the_weight)
        } else {
            big_from(0)
        };

        // occurrences in sequences that split out of the FAS at later stages
        let mut from_later_splits = big_from(0);
        if weight_idx == fas_weight_idxs[stage] {
            let mut n: usize = stage + 1;
            proof {
                assert(s.skip(stage + 1).len() == n_max - stage - 1);
            }
            while n < n_max
                invariant
                    stage + 1 <= n <= n_max,
                    self.wf(),
                    view == self.trellis@,
                    w == view.weights,
                    t == view.threshold,
                    n_max == view.n_max,
                    s == fas_weight_idxs@.map_values(|i: usize| i as int),
                    fas_weight_idxs@.len() == n_max,
                    fas_wls@.len() == n_max + 1,
                    fwd_valid(w, n_max as nat, t, s),
                    forall|k: int|
                        0 <= k <= n_max ==> #[trigger] fas_wls@[k] == weight_of(w, s.take(k)),
                    forall|k: int|
                        0 <= k <= n_max ==> reachable(w, #[trigger] fas_wls@[k] as int) && fas_wls@[k]
                            + weight_of(w, s.skip(k)) <= t,
                    fwd_rank(w, t - fas_wls@[stage + 1], s.skip(stage + 1)) == int_val(
                        from_later_splits,
                    ) + fwd_rank(w, t - fas_wls@[n as int], s.skip(n as int)),
                decreases n_max - n,
            {
                proof {
                    self.lemma_step_along(s, fas_wls@, n as int);
                    assert(s[n as int] == fas_weight_idxs@[n as int]);
                }
                let below = self.sum_before(fas_wls[n], fas_weight_idxs[n], 0, n + 1);
                from_later_splits = big_add(&from_later_splits, &below);
                n += 1;
            }
            proof {
                assert(s.skip(n_max as int) =~= Seq::<int>::empty());
            }
        }
        let first_two = big_add(&from_earlier_splits, &from_split_at_stage);
        big_add(&first_two, &from_later_splits)
    }

    /// What holds at a stage along a sequence of the code: the rest of the
    /// sequence is a sequence of the code that starts at the weight level
    /// passed, and its first symbol leads to the weight level passed next.
    proof fn lemma_step_along(&self, s: Seq<int>, path: Seq<usize>, n: int)
        requires
            self.wf(),
            fwd_valid(
                self.trellis@.weights,
                self.trellis@.n_max as nat,
                self.trellis@.threshold as int,
                s,
            ),
            path.len() == self.trellis@.n_max + 1,
            forall|k: int|
                0 <= k <= self.trellis@.n_max ==> #[trigger] path[k] == weight_of(
                    self.trellis@.weights,
                    s.take(k),
                ),
            0 <= n < self.trellis@.n_max,
        ensures
            fwd_valid(
                self.trellis@.weights,
                (self.trellis@.n_max - n) as nat,
                self.trellis@.threshold - path[n],
                s.skip(n),
            ),
            s.skip(n)[0] == s[n],
            0 <= s[n] < self.trellis@.weights.len(),
            s.skip(n).drop_first() == s.skip(n + 1),
            path[n + 1] == path[n] + self.trellis@.weights[s[n]],
            path[n + 1] <= self.trellis@.threshold,
            fwd_rank(self.trellis@.weights, self.trellis@.threshold - path[n], s.skip(n)) == fwd_below(
                self.trellis@.weights,
                (self.trellis@.n_max - n) as nat,
                self.trellis@.threshold - path[n],
                s[n],
            ) + fwd_rank(self.trellis@.weights, self.trellis@.threshold - path[n + 1], s.skip(n + 1)),
    {
        let w = self.trellis@.weights;
        lemma_weight_split(w, s, n);
        lemma_weight_split(w, s, n + 1);
        assert(s.skip(n).drop_first() =~= s.skip(n + 1));
        assert(s.take(n + 1).drop_last() =~= s.take(n));
        assert(is_symbols(w, s.skip(n)));
        assert(is_symbols(w, s.skip(n + 1)));
        lemma_weight_nonneg(w, s.skip(n + 1));
        assert(path[n] == weight_of(w, s.take(n)));
        assert(path[n + 1] == weight_of(w, s.take(n + 1)));
    }
}

/// Where a symbol occurs equally often at every stage, it occurs that often
/// times the number of stages in all.
pub proof fn lemma_fwd_symbol_total_even(
    w: Seq<usize>,
    len: nat,
    budget: int,
    places: int,
    a: int,
    stages: nat,
    each: int,
)
    requires
        forall|p: int| 0 <= p < stages ==> #[trigger] fwd_occurrences(w, len, budget, places, p, a) == each,
    ensures
        fwd_symbol_total(w, len, budget, places, a, stages) == stages * each,
    decreases stages,
{
    if stages > 0 {
        lemma_fwd_symbol_total_even(w, len, budget, places, a, (stages - 1) as nat, each);
        assert(fwd_occurrences(w, len, budget, places, stages - 1, a) == each);
        assert(stages * each == ((stages - 1) as nat) * each + each) by (nonlinear_arith)
            requires
                stages > 0,
        ;
    } else {
        assert(stages * each == 0) by (nonlinear_arith)
            requires
                stages == 0,
        ;
    }
}

impl AdEss {
    /// For each symbol, the number of its occurrences over all stages among
    /// the sequences that are used.
    pub open spec fn spec_amplitude_counts(&self) -> Seq<int> {
        Seq::new(
            self.trellis@.weights.len(),
            |a: int|
                fwd_symbol_total(
                    self.trellis@.weights,
                    self.trellis@.n_max as nat,
                    self.trellis@.threshold as int,
                    self.spec_num_used(),
                    a,
                    self.trellis@.n_max as nat,
                ),
        )
    }

    /// For each symbol, the number of its occurrences at one stage, whichever
    /// it is, among all sequences of the code.
    pub open spec fn spec_amplitude_counts_full_utilization(&self) -> Seq<int> {
        Seq::new(
            self.trellis@.weights.len(),
            |a: int|
                fwd_count(
                    self.trellis@.weights,
                    (self.trellis@.n_max - 1) as nat,
                    self.trellis@.threshold - self.trellis@.weights[a],
                ),
        )
    }

    /// Returns the amplitude distribution
    ///
    /// The amplitude distribution is valid if only sequences with indexes
    /// representable with [self.num_bits] bits are used: it counts the
    /// occurrences of each amplitude over all stages of these sequences.
    pub fn amplitude_distribution(&self) -> (d: AmplitudeDistribution)
        requires
            self.wf(),
            self.trellis@.n_max >= 1,
        ensures
            d.spec_counts() == self.spec_amplitude_counts(),
            int_val(d.total) == self.spec_num_used() * self.trellis@.n_max,
    {
        let ghost view = self.trellis@;
        let ghost w = view.weights;
        let ghost t = view.threshold as int;
        let ghost used = self.spec_num_used();
        let num_bits = self.num_bits();
        proof {
            lemma_bits_of(self.spec_num_sequences(), num_bits as nat);
            lemma_pow2(num_bits as nat);
        }
        let num_sequences_used = big_pow(2, num_bits);
        let n_max = self.trellis.n_max();
        let total = big_mul_small(&num_sequences_used, n_max);

        if big_eq(&num_sequences_used, &self.num_sequences()) {
            let full = self.amplitude_distribution_full_utilization();
            let mut counts: Vec<Integer> = Vec::new();
            let mut a: usize = 0;
            proof {
                assert(full.spec_counts().len() == w.len());
            }
            while a < full.counts.len()
                invariant
                    a <= full.counts@.len(),
                    full.counts@.len() == w.len(),
                    self.wf(),
                    view == self.trellis@,
                    w == view.weights,
                    t == view.threshold,
                    n_max == view.n_max,
                    n_max >= 1,
                    used == self.spec_num_used(),
                    used == self.spec_num_sequences(),
                    full.spec_counts() == self.spec_amplitude_counts_full_utilization(),
                    counts@.len() == a,
                    forall|b: int|
                        0 <= b < a ==> int_val(#[trigger] counts@[b]) == self.spec_amplitude_counts()[b],
                decreases full.counts@.len() - a,
            {
                proof {
                    let each = full.spec_counts()[a as int];
                    assert(each == int_val(full.counts@[a as int]));
                    assert forall|p: int| 0 <= p < n_max implies #[trigger] fwd_occurrences(
                        w,
                        n_max as nat,
                        t,
                        used,
                        p,
                        a as int,
                    ) == each by {
                        lemma_fwd_occurrences_full(w, n_max as nat, t, p, a as int);
                    }
                    lemma_fwd_symbol_total_even(w, n_max as nat, t, used, a as int, n_max as nat, each);
                    assert(n_max * each == each * n_max) by (nonlinear_arith);
                }
                counts.push(big_mul_small(&full.counts[a], n_max));
                a += 1;
            }
            let d = AmplitudeDistribution { counts, total };
            proof {
                assert(d.spec_counts() =~= self.spec_amplitude_counts());
            }
            return d;
        }
        let weights = self.trellis.get_weights();
        let mut counts: Vec<Integer> = Vec::new();
        let mut weight_idx: usize = 0;
        while weight_idx < weights.len()
            invariant
                weight_idx <= weights@.len(),
                weights@ == w,
                self.wf(),
                view == self.trellis@,
                w == view.weights,
                t == view.threshold,
                n_max == view.n_max,
                used == self.spec_num_used(),
                used < self.spec_num_sequences(),
                counts@.len() == weight_idx,
                forall|b: int|
                    0 <= b < weight_idx ==> int_val(#[trigger] counts@[b])
                        == self.spec_amplitude_counts()[b],
            decreases weights@.len() - weight_idx,
        {
            // sum occurrences over all stages
            let mut occurrences = big_from(0);
            let mut stage: usize = 0;
            while stage < n_max
                invariant
                    stage <= n_max,
                    weight_idx < w.len(),
                    self.wf(),
                    view == self.trellis@,
                    w == view.weights,
                    t == view.threshold,
                    n_max == view.n_max,
                    used == self.spec_num_used(),
                    used < self.spec_num_sequences(),
                    int_val(occurrences) == fwd_symbol_total(
                        w,
                        n_max as nat,
                        t,
                        used,
                        weight_idx as int,
                        stage as nat,
                    ),
                decreases n_max - stage,
            {
                let in_stage = self.count_weight_in_stage(weight_idx, stage);
                occurrences = big_add(&occurrences, &in_stage);
                stage += 1;
            }
            counts.push(occurrences);
            weight_idx += 1;
        }
        let d = AmplitudeDistribution { counts, total };
        proof {
            assert(d.spec_counts() =~= self.spec_amplitude_counts());
        }
        d
    }

    /// Returns the amplitude distribution
    ///
    /// The amplitude distribution is valid if all sequences in the trellis
    /// are used equiprobably: it counts the occurrences of each amplitude at
    /// one stage of all sequences, which are the same at every stage.
    pub fn amplitude_distribution_full_utilization(&self) -> (d: AmplitudeDistribution)
        requires
            self.wf(),
            self.trellis@.n_max >= 1,
        ensures
            d.spec_counts() == self.spec_amplitude_counts_full_utilization(),
            int_val(d.total) == self.spec_num_sequences(),
    {
        let ghost view = self.trellis@;
        let ghost w = view.weights;
        let ghost t = view.threshold as int;
        let num_sequences = self.num_sequences();
        let num_weights = self.trellis.get_weights().len();
        let mut distribution: Vec<Integer> = Vec::new();
        let mut a: usize = 0;
        while a < num_weights
            invariant
                a <= num_weights,
                distribution@.len() == a,
                forall|b: int| 0 <= b < a ==> int_val(#[trigger] distribution@[b]) == 0,
            decreases num_weights - a,
        {
            distribution.push(big_from(0));
            a += 1;
        }
        let successors = self.trellis.get_successors(0);
        let ghost syms = symbols_in(successors@);
        let mut q: usize = 0;
        proof {
            crate::counting::lemma_reachable_zero(w);
            lemma_successor_symbols(w, t, 0, successors@);
        }
        while q < successors.len()
            invariant
                q <= successors@.len(),
                self.wf(),
                view == self.trellis@,
                w == view.weights,
                t == view.threshold,
                view.n_max >= 1,
                is_successor_list(w, t, 0, successors@),
                syms == symbols_in(successors@),
                distribution@.len() == w.len(),
                forall|b: int|
                    0 <= b < w.len() ==> int_val(#[trigger] distribution@[b]) == if syms.take(
                        q as int,
                    ).contains(b) {
                        fwd_count(w, (view.n_max - 1) as nat, t - w[b])
                    } else {
                        0
                    },
            decreases successors@.len() - q,
        {
            let (w_idx, wl) = successors[q];
            proof {
                assert(successors@[q as int].0 == w_idx);
                assert(syms[q as int] == w_idx);
                crate::counting::lemma_reachable_zero(w);
                lemma_reachable_step(w, 0, w_idx as int);
                assert(view.has_level(wl as int));
                view.lemma_level_index(wl as int);
            }
            let ghost before = distribution@;
            distribution[w_idx] = self.trellis.get(1, wl);
            proof {
                let ahead = syms.take(q as int);
                let upto = syms.take(q + 1);
                assert forall|b: int| 0 <= b < w.len() implies int_val(#[trigger] distribution@[b])
                    == if upto.contains(b) {
                    fwd_count(w, (view.n_max - 1) as nat, t - w[b])
                } else {
                    0
                } by {
                    if b == w_idx {
                        assert(upto[q as int] == b);
                    } else {
                        assert(distribution@[b] == before[b]);
                        if ahead.contains(b) {
                            let p = choose|p: int| 0 <= p < ahead.len() && ahead[p] == b;
                            assert(upto[p] == b);
                        }
                        if upto.contains(b) {
                            let p = choose|p: int| 0 <= p < upto.len() && upto[p] == b;
                            assert(ahead[p] == b);
                        }
                    }
                }
            }
            q += 1;
        }
        let d = AmplitudeDistribution { counts: distribution, total: num_sequences };
        proof {
            assert(syms.take(q as int) =~= syms);
            lemma_successor_symbols(w, t, 0, successors@);
            assert(d.spec_counts() =~= self.spec_amplitude_counts_full_utilization());
        }
        d
    }

    /// Returns the average energy as a fraction: the energy of all
    /// amplitudes of the sequences that are used, and the number of these
    /// amplitudes.
    ///
    /// Assumes only indexes representable with [self.num_bits] bits are used.
    pub fn average_energy(&self) -> (energy: (Integer, Integer))
        requires
            self.wf(),
            self.trellis@.n_max >= 1,
        ensures
            int_val(energy.0) == seq_sum(crate::distribution::energy_terms(self.spec_amplitude_counts())),
            int_val(energy.1) == self.spec_num_used() * self.trellis@.n_max,
    {
        let amplitude_distribution = self.amplitude_distribution();
        proof {
            assert(amplitude_distribution.spec_counts().len() == self.trellis@.weights.len());
        }
        let sum = amplitude_distribution.energy();
        (sum, amplitude_distribution.total)
    }
}

impl AdEss {
    /// The sequences that are used are some of the sequences of the code,
    /// and one at least.
    pub proof fn lemma_num_used(&self)
        requires
            self.wf(),
        ensures
            1 <= self.spec_num_used() <= self.spec_num_sequences(),
    {
        let view = self.trellis@;
        let n = self.spec_num_sequences();
        crate::counting::lemma_fwd_count_positive(view.weights, view.n_max as nat, view.threshold as int);
        lemma_bits_exist(n);
        vstd::arithmetic::power2::lemma_pow2_pos(bits_of(n));
    }
}

} // verus!
