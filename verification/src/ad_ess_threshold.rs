//! The ways to choose the threshold of the threshold-bounded code: for a
//! number of bits, and among candidates around an estimate.

use crate::ad_ess::AdEss;
use crate::bigint::{big_add, big_from, big_lt, big_pow, int_val};
use crate::counting::{
    fwd_count, lemma_count_conservation, lemma_fwd_count_bound, lemma_level_position,
    lemma_rev_total_gap, lemma_rev_total_monotone, lemma_total_below_level, reachable, rev_count,
    rev_total,
};
use crate::error::ShapingError;
use crate::trellis::{max_weight, Trellis, valid_config, valid_expandable_config};
use crate::trellis_utils::reverse_trellis_upto_num_sequences;
use rug::Integer;
use vstd::arithmetic::power2::{lemma_pow2, lemma_pow2_strictly_increases, pow2};
use vstd::prelude::*;

verus! {

/// The candidates for a threshold around place `c` of the list of weight
/// levels: the `width` weight levels before it, itself and the `width - 1`
/// after it, as far as the list goes; none where fewer than `width` weight
/// levels stand before it.
pub open spec fn threshold_window(levels: Seq<usize>, c: int, width: int) -> Seq<usize> {
    if width > c {
        Seq::empty()
    } else if c + width >= levels.len() {
        levels.subrange(c - width, levels.len() as int)
    } else {
        levels.subrange(c - width, c + width)
    }
}

/// Place `c` of the list of weight levels holds the lowest weight level up
/// to which there are at least `target` sequences of length `len`.
pub open spec fn is_first_reaching(w: Seq<usize>, len: nat, levels: Seq<usize>, target: int, c: int) -> bool {
    &&& 0 <= c < levels.len()
    &&& rev_total(w, len, levels[c] as int) >= target
    &&& forall|d: int| 0 <= d < c ==> rev_total(w, len, #[trigger] levels[d] as int) < target
}

impl AdEss {
    /// Returns a new [AdEss] instance for the weights of a distribution
    ///
    /// The trellis is calculated with `n_max` stages using `weights` and
    /// holds sequences with a sum weight up to `threshold`.
    pub fn new_for_distribution_threshold(threshold: usize, n_max: usize, weights: &[usize]) -> (r:
        Result<AdEss, ShapingError>)
        ensures
            r is Ok <==> valid_config(weights@, threshold, n_max),
            r matches Err(e) ==> e == ShapingError::InvalidConfiguration,
            r matches Ok(code) ==> code.wf() && code.trellis@.threshold == threshold
                && code.trellis@.n_max == n_max && code.trellis@.weights == weights@,
    {
        AdEss::new(threshold, n_max, weights)
    }

    /// Returns an [AdEss] instance which encodes at least `num_bits` bits
    ///
    /// The smallest possible trellis that encodes `num_bits` bits is used, in
    /// some cases this trellis is capable of encoding more than `num_bits` bits.
    ///
    /// The trellis is calculated with `n_max` stages using `weights`, the
    /// weights of a distribution.
    pub fn new_for_distribution_num_bits(num_bits: usize, n_max: usize, weights: &[usize]) -> (r:
        Result<AdEss, ShapingError>)
        ensures
            r is Ok <==> valid_expandable_config(weights@, n_max) && pow2(num_bits as nat) <= fwd_count(
                weights@,
                n_max as nat,
                n_max * max_weight(weights@),
            ),
            r matches Err(e) ==> e == (if valid_expandable_config(weights@, n_max) {
                ShapingError::TooManySequences
            } else {
                ShapingError::InvalidConfiguration
            }),
            r matches Ok(code) ==> code.wf() && code.trellis@.n_max == n_max && code.trellis@.weights
                == weights@ && code.spec_num_sequences() >= pow2(num_bits as nat) && forall|lower: int|
                lower < code.trellis@.threshold ==> #[trigger] fwd_count(weights@, n_max as nat, lower)
                    < pow2(num_bits as nat),
    {
        let ghost cap = n_max * max_weight(weights@);
        proof {
            lemma_count_conservation(weights@, n_max as nat, cap);
        }
        if num_bits > 0xffff_ffff {
            // More bits than any trellis of this library holds sequences for.
            return match Trellis::new_expandable(n_max, weights) {
                Ok(_) => {
                    proof {
                        lemma_fwd_count_bound(weights@, n_max as nat, cap);
                        lemma_pow2_strictly_increases((64 * n_max) as nat, num_bits as nat);
                    }
                    Err(ShapingError::TooManySequences)
                },
                Err(e) => Err(e),
            };
        }
        let exponent: u32 = num_bits as u32;
        proof {
            lemma_pow2(num_bits as nat);
        }
        let num_sequences = big_pow(2, exponent);
        let reverse_trellis = match reverse_trellis_upto_num_sequences(num_sequences, n_max, weights) {
            Ok(trellis) => trellis,
            Err(e) => {
                return Err(e);
            },
        };
        let threshold = reverse_trellis.threshold();
        proof {
            let view = reverse_trellis@;
            let target = pow2(num_bits as nat) as int;
            lemma_count_conservation(weights@, n_max as nat, threshold as int);
            assert forall|lower: int| lower < threshold implies #[trigger] fwd_count(
                weights@,
                n_max as nat,
                lower,
            ) < target by {
                lemma_count_conservation(weights@, n_max as nat, lower);
                lemma_total_below_level(weights@, n_max as nat, view.levels, view.num_levels - 1);
                lemma_rev_total_monotone(weights@, n_max as nat, lower, threshold - 1);
                crate::counting::lemma_fwd_count_positive(weights@, n_max as nat, 0);
                lemma_count_conservation(weights@, n_max as nat, 0);
                lemma_rev_total_monotone(weights@, n_max as nat, 0, threshold as int);
                vstd::arithmetic::power2::lemma_pow2_pos(num_bits as nat);
            }
        }
        AdEss::new(threshold, n_max, weights)
    }

    /// The thresholds among which the one that loses the least information
    /// is looked for: the weight levels around the lowest one up to which
    /// the reverse trellis with the threshold `rev_trellis_threshold` holds
    /// at least `estimated_optimal_size` sequences.
    ///
    /// - `search_width`: number of weight levels to take below and from the
    ///   estimated optimal threshold on
    pub fn optimal_threshold_candidates(
        n_max: usize,
        weights: &[usize],
        rev_trellis_threshold: usize,
        estimated_optimal_size: &Integer,
        search_width: usize,
    ) -> (r: Result<Vec<usize>, ShapingError>)
        ensures
            r is Ok <==> valid_config(weights@, rev_trellis_threshold, n_max) && int_val(
                *estimated_optimal_size,
            ) <= rev_total(weights@, n_max as nat, rev_trellis_threshold as int),
            r matches Err(e) ==> e == (if valid_config(weights@, rev_trellis_threshold, n_max) {
                ShapingError::SearchExhausted
            } else {
                ShapingError::InvalidConfiguration
            }),
            r matches Ok(thresholds) ==> exists|levels: Seq<usize>, c: int|
                crate::counting::lists_levels(weights@, rev_trellis_threshold as int, levels)
                    && is_first_reaching(
                    weights@,
                    n_max as nat,
                    levels,
                    int_val(*estimated_optimal_size),
                    c,
                ) && thresholds@ == #[trigger] threshold_window(levels, c, search_width as int),
    {
        let rev_trellis = match AdEss::calc_reverse_trellis(rev_trellis_threshold, n_max, weights) {
            Ok(trellis) => trellis,
            Err(e) => {
                return Err(e);
            },
        };
        let ghost view = rev_trellis@;
        let ghost w = view.weights;
        let ghost target = int_val(*estimated_optimal_size);
        let last_stage = rev_trellis.get_stage(n_max);
        let weight_levels = rev_trellis.get_weight_levels();

        // The place of the first weight level up to which the code is large
        // enough.
        let mut code_size = big_from(0);
        let mut estimated_optimal_wl_idx: usize = 0;
        let mut found: bool = false;
        let mut c: usize = 0;
        while c < last_stage.len() && !found
            invariant
                c <= last_stage@.len(),
                rev_trellis.wf(),
                view == rev_trellis@,
                w == view.weights,
                w == weights@,
                n_max == view.n_max,
                target == int_val(*estimated_optimal_size),
                view.num_levels == view.levels.len(),
                crate::trellis_utils::holds_reverse_counts(view),
                last_stage@.len() == view.num_levels,
                weight_levels@ == view.levels,
                forall|d: int|
                    0 <= d < last_stage@.len() ==> int_val(#[trigger] last_stage@[d])
                        == view.values[n_max as int][d],
                !found && c == 0 ==> int_val(code_size) == 0,
                !found && c > 0 ==> int_val(code_size) == rev_total(
                    w,
                    n_max as nat,
                    view.levels[c - 1] as int,
                ),
                !found ==> forall|d: int|
                    0 <= d < c ==> rev_total(w, n_max as nat, #[trigger] view.levels[d] as int)
                        < target,
                found ==> is_first_reaching(
                    w,
                    n_max as nat,
                    view.levels,
                    target,
                    estimated_optimal_wl_idx as int,
                ),
            decreases last_stage@.len() - c + (if found { 0int } else { 1int }),
        {
            proof {
                lemma_total_below_level(w, n_max as nat, view.levels, c as int);
                assert(view.values[n_max as int][c as int] == rev_count(
                    w,
                    n_max as nat,
                    view.levels[c as int] as int,
                ));
            }
            let upto = big_add(&code_size, &last_stage[c]);
            if !big_lt(&upto, estimated_optimal_size) {
                estimated_optimal_wl_idx = c;
                found = true;
            } else {
                code_size = upto;
                c += 1;
            }
        }
        proof {
            // What the whole of the reverse trellis holds.
            let last = view.levels.last() as int;
            assert forall|v: int| last < v <= rev_trellis_threshold implies !#[trigger] reachable(
                w,
                v,
            ) by {
                if reachable(w, v) {
                    assert(view.has_level(v));
                    let d = choose|d: int|
                        0 <= d < view.num_levels && d < view.levels.len() && view.levels[d] == v;
                    lemma_level_position(view.levels, d, view.levels.len() - 1);
                }
            }
            lemma_rev_total_gap(w, n_max as nat, last, rev_trellis_threshold as int);
            if found {
                lemma_level_position(
                    view.levels,
                    estimated_optimal_wl_idx as int,
                    view.levels.len() - 1,
                );
                lemma_rev_total_monotone(
                    w,
                    n_max as nat,
                    view.levels[estimated_optimal_wl_idx as int] as int,
                    last,
                );
            }
        }
        if !found {
            return Err(ShapingError::SearchExhausted);
        }
        let mut thresholds: Vec<usize> = Vec::new();
        if search_width <= estimated_optimal_wl_idx {
            let search_start_wl_idx: usize = estimated_optimal_wl_idx - search_width;
            let search_end_wl_idx: usize = if search_width >= weight_levels.len()
                - estimated_optimal_wl_idx {
                weight_levels.len()
            } else {
                estimated_optimal_wl_idx + search_width
            };
            let mut wl_idx: usize = search_start_wl_idx;
            while wl_idx < search_end_wl_idx
                invariant
                    search_start_wl_idx <= wl_idx <= search_end_wl_idx <= weight_levels@.len(),
                    thresholds@ == weight_levels@.subrange(
                        search_start_wl_idx as int,
                        wl_idx as int,
                    ),
                decreases search_end_wl_idx - wl_idx,
            {
                thresholds.push(weight_levels[wl_idx]);
                proof {
                    assert(weight_levels@.subrange(search_start_wl_idx as int, wl_idx + 1)
                        =~= weight_levels@.subrange(search_start_wl_idx as int, wl_idx as int).push(
                        weight_levels@[wl_idx as int],
                    ));
                }
                wl_idx += 1;
            }
        }
        proof {
            assert(thresholds@ =~= threshold_window(
                view.levels,
                estimated_optimal_wl_idx as int,
                search_width as int,
            ));
            assert(crate::counting::lists_levels(w, rev_trellis_threshold as int, view.levels)) by {
                assert forall|v: int|
                    0 <= v <= rev_trellis_threshold && #[trigger] reachable(w, v) implies crate::counting::lists(
                    view.levels,
                    v,
                ) by {
                    assert(view.has_level(v));
                }
                assert forall|d: int| 0 <= d < view.levels.len() implies #[trigger] view.levels[d]
                    <= rev_trellis_threshold && reachable(w, view.levels[d] as int) by {
                    assert(view.has_level(view.levels[d] as int));
                }
            }
        }
        Ok(thresholds)
    }
}

} // verus!
