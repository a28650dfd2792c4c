//! What holds of the two codes as a whole: that encoding and decoding undo
//! each other, that every sequence keeps within the threshold all along,
//! that counting forward and backward agree, and that the distributions add
//! up.

use crate::ad_ess::AdEss;
use crate::ad_ess_distribution::fwd_symbol_total;
use crate::amplitudes::{
    is_amplitudes_of, lemma_amplitudes_of_symbols, lemma_amplitudes_unique,
    lemma_symbols_of_amplitudes, symbols_of,
};
use crate::bits::{
    bits_value, is_binary, is_bits_of, lemma_bit_of_bits_value, lemma_bits_value_range,
};
use crate::counting::{
    fwd_branches, fwd_count, fwd_rank, fwd_unrank, lemma_count_conservation, lemma_fwd_count_unfold,
    lemma_fwd_rank_range, lemma_fwd_unrank, lemma_fwd_unrank_of_rank, lemma_level_position,
    lemma_rev_total_columns, lemma_rev_total_gap, lemma_rev_total_monotone, lemma_rev_unrank,
    lemma_rev_unrank_of_rank, lemma_total_below_level, lemma_weight_prefix, reachable, rev_count,
    rev_rank, rev_total, rev_unrank, weight_of,
};
use crate::occurrences::{fwd_occurrences, rev_occurrences};
use crate::rts::RTS;
use crate::rts_distribution::rev_symbol_total;
use crate::sums::{lemma_sum_add, lemma_sum_update, lemma_sum_zero, seq_sum};
use crate::trellis::TrellisView;
use crate::trellis_utils::holds_reverse_counts;
use vstd::arithmetic::power2::pow2;
use vstd::prelude::*;

verus! {

/// The threshold-bounded code decodes what it encoded to the index that was
/// encoded: the sequence that `sequence_for_index` gives for an index below
/// the number of sequences is a sequence of the code, and
/// `index_for_sequence` gives that index for it.
pub proof fn law_adess_decode_inverts_encode(code: AdEss, index: int, amplitudes: Seq<usize>)
    requires
        code.wf(),
        0 <= index < code.spec_num_sequences(),
        is_amplitudes_of(
            amplitudes,
            fwd_unrank(
                code.trellis@.weights,
                code.trellis@.n_max as nat,
                code.trellis@.threshold as int,
                index,
            ),
        ),
    ensures
        code.is_code_sequence(amplitudes),
        fwd_rank(code.trellis@.weights, code.trellis@.threshold as int, symbols_of(amplitudes))
            == index,
{
    let view = code.trellis@;
    lemma_fwd_unrank(view.weights, view.n_max as nat, view.threshold as int, index);
    lemma_amplitudes_of_symbols(
        amplitudes,
        fwd_unrank(view.weights, view.n_max as nat, view.threshold as int, index),
    );
}

/// The threshold-bounded code encodes what it decoded to the sequence that
/// was decoded: the index that `index_for_sequence` gives for a sequence of
/// the code is below the number of sequences, and `sequence_for_index` gives
/// that sequence for it.
pub proof fn law_adess_encode_inverts_decode(code: AdEss, amplitudes: Seq<usize>, again: Seq<usize>)
    requires
        code.wf(),
        code.is_code_sequence(amplitudes),
        is_amplitudes_of(
            again,
            fwd_unrank(
                code.trellis@.weights,
                code.trellis@.n_max as nat,
                code.trellis@.threshold as int,
                fwd_rank(code.trellis@.weights, code.trellis@.threshold as int, symbols_of(amplitudes)),
            ),
        ),
    ensures
        0 <= fwd_rank(code.trellis@.weights, code.trellis@.threshold as int, symbols_of(amplitudes))
            < code.spec_num_sequences(),
        again == amplitudes,
{
    let view = code.trellis@;
    let s = symbols_of(amplitudes);
    lemma_fwd_rank_range(view.weights, view.n_max as nat, view.threshold as int, s);
    lemma_fwd_unrank_of_rank(view.weights, view.n_max as nat, view.threshold as int, s);
    lemma_symbols_of_amplitudes(amplitudes);
    lemma_amplitudes_unique(again, amplitudes, s);
}

/// The energy-ordered code decodes what it encoded to the index that was
/// encoded.
pub proof fn law_rts_decode_inverts_encode(code: RTS, index: int, amplitudes: Seq<usize>)
    requires
        code.wf(),
        0 <= index < code.spec_num_sequences(),
        is_amplitudes_of(
            amplitudes,
            rev_unrank(code.trellis@.weights, code.trellis@.n_max as nat, index),
        ),
    ensures
        code.is_code_sequence(amplitudes),
        rev_rank(code.trellis@.weights, symbols_of(amplitudes)) == index,
{
    let view = code.trellis@;
    lemma_rev_unrank(view.weights, view.n_max as nat, view.threshold as int, index);
    lemma_amplitudes_of_symbols(amplitudes, rev_unrank(view.weights, view.n_max as nat, index));
}

/// The energy-ordered code encodes what it decoded to the sequence that was
/// decoded.
pub proof fn law_rts_encode_inverts_decode(code: RTS, amplitudes: Seq<usize>, again: Seq<usize>)
    requires
        code.wf(),
        code.is_code_sequence(amplitudes),
        is_amplitudes_of(
            again,
            rev_unrank(
                code.trellis@.weights,
                code.trellis@.n_max as nat,
                rev_rank(code.trellis@.weights, symbols_of(amplitudes)),
            ),
        ),
    ensures
        0 <= rev_rank(code.trellis@.weights, symbols_of(amplitudes)) < code.spec_num_sequences(),
        again == amplitudes,
{
    let view = code.trellis@;
    let s = symbols_of(amplitudes);
    lemma_rev_unrank_of_rank(view.weights, s);
    lemma_rev_total_monotone(
        view.weights,
        view.n_max as nat,
        weight_of(view.weights, s),
        view.threshold as int,
    );
    lemma_symbols_of_amplitudes(amplitudes);
    lemma_amplitudes_unique(again, amplitudes, s);
}

/// Bits that the threshold-bounded code encoded are decoded again: a string
/// of as many bits as the code has is the index of a sequence, and the bits
/// that `decode` gives for the sequence that `encode` gives for the string
/// are the bits of the string.
pub proof fn law_adess_bits_round_trip(
    code: AdEss,
    index_bits: Seq<u8>,
    amplitudes: Seq<usize>,
    decoded: Seq<u32>,
)
    requires
        code.wf(),
        pow2(index_bits.len()) <= code.spec_num_sequences(),
        forall|i: int| 0 <= i < index_bits.len() ==> #[trigger] index_bits[i] <= 1,
        is_amplitudes_of(
            amplitudes,
            fwd_unrank(
                code.trellis@.weights,
                code.trellis@.n_max as nat,
                code.trellis@.threshold as int,
                bits_value(index_bits.map_values(|b: u8| b as int)),
            ),
        ),
        decoded.len() == index_bits.len(),
        is_bits_of(
            decoded,
            fwd_rank(code.trellis@.weights, code.trellis@.threshold as int, symbols_of(amplitudes)),
        ),
    ensures
        0 <= bits_value(index_bits.map_values(|b: u8| b as int)) < code.spec_num_sequences(),
        code.is_code_sequence(amplitudes),
        forall|i: int| 0 <= i < decoded.len() ==> #[trigger] decoded[i] == index_bits[i],
{
    let bits = index_bits.map_values(|b: u8| b as int);
    assert(is_binary(bits)) by {
        assert forall|i: int| 0 <= i < bits.len() implies 0 <= #[trigger] bits[i] <= 1 by {
            assert(index_bits[i] <= 1);
        }
    }
    lemma_bits_value_range(bits);
    law_adess_decode_inverts_encode(code, bits_value(bits), amplitudes);
    assert forall|i: int| 0 <= i < decoded.len() implies #[trigger] decoded[i] == index_bits[i] by {
        lemma_bit_of_bits_value(bits, i);
    }
}

/// Every sequence of the threshold-bounded code keeps within the threshold
/// at every stage: no prefix of it weighs more than the threshold.
pub proof fn law_adess_weight_within_threshold(code: AdEss, index: int, stage: int)
    requires
        code.wf(),
        0 <= index < code.spec_num_sequences(),
        0 <= stage <= code.trellis@.n_max,
    ensures
        0 <= weight_of(
            code.trellis@.weights,
            fwd_unrank(
                code.trellis@.weights,
                code.trellis@.n_max as nat,
                code.trellis@.threshold as int,
                index,
            ).take(stage),
        ) <= code.trellis@.threshold,
{
    let view = code.trellis@;
    lemma_fwd_unrank(view.weights, view.n_max as nat, view.threshold as int, index);
    lemma_weight_prefix(
        view.weights,
        fwd_unrank(view.weights, view.n_max as nat, view.threshold as int, index),
        stage,
    );
}

/// Every sequence of the energy-ordered code keeps within the threshold at
/// every stage.
pub proof fn law_rts_weight_within_threshold(code: RTS, index: int, stage: int)
    requires
        code.wf(),
        0 <= index < code.spec_num_sequences(),
        0 <= stage <= code.trellis@.n_max,
    ensures
        0 <= weight_of(
            code.trellis@.weights,
            rev_unrank(code.trellis@.weights, code.trellis@.n_max as nat, index).take(stage),
        ) <= code.trellis@.threshold,
{
    let view = code.trellis@;
    lemma_rev_unrank(view.weights, view.n_max as nat, view.threshold as int, index);
    lemma_weight_prefix(view.weights, rev_unrank(view.weights, view.n_max as nat, index), stage);
}

/// The entries of a stage of a reverse trellis, from the lowest weight level
/// up to some column, add up to the number of sequences of a weight up to the
/// weight level of that column.
pub proof fn lemma_reverse_stage_sum(reverse: TrellisView, stage: int, columns: int)
    requires
        reverse.valid(),
        holds_reverse_counts(reverse),
        0 <= stage <= reverse.n_max,
        0 <= columns <= reverse.num_levels,
    ensures
        columns == 0 ==> seq_sum(reverse.values[stage].take(columns)) == 0,
        columns > 0 ==> seq_sum(reverse.values[stage].take(columns)) == rev_total(
            reverse.weights,
            stage as nat,
            reverse.levels[columns - 1] as int,
        ),
    decreases columns,
{
    let row = reverse.values[stage];
    if columns == 0 {
        assert(row.take(0) =~= Seq::<int>::empty());
    } else {
        lemma_reverse_stage_sum(reverse, stage, columns - 1);
        lemma_total_below_level(reverse.weights, stage as nat, reverse.levels, columns - 1);
        assert(row.take(columns).drop_last() =~= row.take(columns - 1));
        assert(row[columns - 1] == rev_count(
            reverse.weights,
            stage as nat,
            reverse.levels[columns - 1] as int,
        ));
    }
}

/// Count conservation: the entry at the origin of the forward trellis, which
/// is the number of sequences of the threshold-bounded code, is the sum of
/// the entries of the last stage of the reverse trellis for the same
/// threshold, stages and weights.
pub proof fn law_count_conservation(code: AdEss, reverse: TrellisView)
    requires
        code.wf(),
        reverse.valid(),
        reverse.same_shape(code.trellis@),
        holds_reverse_counts(reverse),
    ensures
        code.trellis@.value(0, 0) == code.spec_num_sequences(),
        code.spec_num_sequences() == seq_sum(reverse.values[reverse.n_max as int]),
{
    let forward = code.trellis@;
    let w = forward.weights;
    let n = forward.n_max as nat;
    let t = forward.threshold as int;
    // The origin of the forward trellis.
    assert(forward.levels[0] == 0);
    forward.lemma_level_index(0);
    lemma_level_position(forward.levels, 0, forward.level_index(0));
    assert(forward.values[0][0] == fwd_count(w, (forward.n_max - 0) as nat, t - forward.levels[0]));
    // The last stage of the reverse trellis.
    let row = reverse.values[reverse.n_max as int];
    lemma_reverse_stage_sum(reverse, reverse.n_max as int, reverse.num_levels as int);
    assert(row.take(reverse.num_levels as int) =~= row);
    let last = reverse.levels.last() as int;
    assert forall|v: int| last < v <= t implies !#[trigger] reachable(w, v) by {
        if reachable(w, v) {
            assert(reverse.has_level(v));
            let d = choose|d: int|
                0 <= d < reverse.num_levels && d < reverse.levels.len() && reverse.levels[d] == v;
            lemma_level_position(reverse.levels, d, reverse.levels.len() - 1);
        }
    }
    assert(reverse.has_level(last));
    lemma_rev_total_gap(w, n, last, t);
    lemma_count_conservation(w, n, t);
}

/// At one stage of the first sequences of the threshold-bounded code, the
/// occurrences of all symbols are as many as the sequences.
pub proof fn lemma_fwd_occurrences_add_up(w: Seq<usize>, len: nat, budget: int, places: int, pos: int)
    requires
        0 <= places <= fwd_count(w, len, budget),
        0 <= pos < len,
    ensures
        seq_sum(Seq::new(w.len(), |a: int| fwd_occurrences(w, len, budget, places, pos, a)))
            == places,
    decreases places,
{
    let now = Seq::new(w.len(), |a: int| fwd_occurrences(w, len, budget, places, pos, a));
    if places == 0 {
        lemma_sum_zero(now);
    } else {
        let before = Seq::new(w.len(), |a: int| fwd_occurrences(w, len, budget, places - 1, pos, a));
        lemma_fwd_occurrences_add_up(w, len, budget, places - 1, pos);
        lemma_fwd_unrank(w, len, budget, places - 1);
        let x = fwd_unrank(w, len, budget, places - 1)[pos];
        assert(0 <= x < w.len());
        assert(now =~= before.update(x, before[x] + 1));
        lemma_sum_update(before, x, before[x] + 1);
    }
}

/// Over some stages of the first sequences of the threshold-bounded code,
/// the occurrences of all symbols are as many as the sequences times the
/// stages.
pub proof fn lemma_fwd_symbol_totals_add_up(
    w: Seq<usize>,
    len: nat,
    budget: int,
    places: int,
    stages: nat,
)
    requires
        0 <= places <= fwd_count(w, len, budget),
        stages <= len,
    ensures
        seq_sum(Seq::new(w.len(), |a: int| fwd_symbol_total(w, len, budget, places, a, stages)))
            == places * stages,
    decreases stages,
{
    let now = Seq::new(w.len(), |a: int| fwd_symbol_total(w, len, budget, places, a, stages));
    if stages == 0 {
        lemma_sum_zero(now);
    } else {
        let before = Seq::new(
            w.len(),
            |a: int| fwd_symbol_total(w, len, budget, places, a, (stages - 1) as nat),
        );
        let at = Seq::new(w.len(), |a: int| fwd_occurrences(w, len, budget, places, stages - 1, a));
        lemma_fwd_symbol_totals_add_up(w, len, budget, places, (stages - 1) as nat);
        lemma_fwd_occurrences_add_up(w, len, budget, places, stages - 1);
        lemma_sum_add(before, at, now);
        assert(places * stages == places * ((stages - 1) as nat) + places) by (nonlinear_arith)
            requires
                stages > 0,
        ;
    }
}

/// At one stage of the first sequences of the energy-ordered code, the
/// occurrences of all symbols are as many as the sequences.
pub proof fn lemma_rev_occurrences_add_up(w: Seq<usize>, len: nat, bound: int, places: int, pos: int)
    requires
        0 <= places <= rev_total(w, len, bound),
        0 <= pos < len,
    ensures
        seq_sum(Seq::new(w.len(), |a: int| rev_occurrences(w, len, places, pos, a))) == places,
    decreases places,
{
    let now = Seq::new(w.len(), |a: int| rev_occurrences(w, len, places, pos, a));
    if places == 0 {
        lemma_sum_zero(now);
    } else {
        let before = Seq::new(w.len(), |a: int| rev_occurrences(w, len, places - 1, pos, a));
        lemma_rev_occurrences_add_up(w, len, bound, places - 1, pos);
        lemma_rev_unrank(w, len, bound, places - 1);
        let x = rev_unrank(w, len, places - 1)[pos];
        assert(0 <= x < w.len());
        assert(now =~= before.update(x, before[x] + 1));
        lemma_sum_update(before, x, before[x] + 1);
    }
}

/// Over some stages of the first sequences of the energy-ordered code, the
/// occurrences of all symbols are as many as the sequences times the stages.
pub proof fn lemma_rev_symbol_totals_add_up(
    w: Seq<usize>,
    len: nat,
    bound: int,
    places: int,
    stages: nat,
)
    requires
        0 <= places <= rev_total(w, len, bound),
        stages <= len,
    ensures
        seq_sum(Seq::new(w.len(), |a: int| rev_symbol_total(w, len, places, a, stages))) == places
            * stages,
    decreases stages,
{
    let now = Seq::new(w.len(), |a: int| rev_symbol_total(w, len, places, a, stages));
    if stages == 0 {
        lemma_sum_zero(now);
    } else {
        let before = Seq::new(
            w.len(),
            |a: int| rev_symbol_total(w, len, places, a, (stages - 1) as nat),
        );
        let at = Seq::new(w.len(), |a: int| rev_occurrences(w, len, places, stages - 1, a));
        lemma_rev_symbol_totals_add_up(w, len, bound, places, (stages - 1) as nat);
        lemma_rev_occurrences_add_up(w, len, bound, places, stages - 1);
        lemma_sum_add(before, at, now);
        assert(places * stages == places * ((stages - 1) as nat) + places) by (nonlinear_arith)
            requires
                stages > 0,
        ;
    }
}

/// The amplitude distribution of the threshold-bounded code is normalized:
/// the numbers of occurrences that `amplitude_distribution` gives add up to
/// the total that it gives, so that the probabilities add up to 1.
pub proof fn law_adess_distribution_normalized(code: AdEss)
    requires
        code.wf(),
    ensures
        seq_sum(code.spec_amplitude_counts()) == code.spec_num_used() * code.trellis@.n_max,
{
    let view = code.trellis@;
    code.lemma_num_used();
    lemma_fwd_symbol_totals_add_up(
        view.weights,
        view.n_max as nat,
        view.threshold as int,
        code.spec_num_used(),
        view.n_max as nat,
    );
    assert(code.spec_amplitude_counts() =~= Seq::new(
        view.weights.len(),
        |a: int|
            fwd_symbol_total(
                view.weights,
                view.n_max as nat,
                view.threshold as int,
                code.spec_num_used(),
                a,
                view.n_max as nat,
            ),
    ));
}

/// The amplitude distribution of the threshold-bounded code with all
/// sequences in use is normalized.
pub proof fn law_adess_full_distribution_normalized(code: AdEss)
    requires
        code.wf(),
        code.trellis@.n_max >= 1,
    ensures
        seq_sum(code.spec_amplitude_counts_full_utilization()) == code.spec_num_sequences(),
{
    let view = code.trellis@;
    lemma_fwd_count_unfold(view.weights, view.n_max as nat, view.threshold as int);
    assert(code.spec_amplitude_counts_full_utilization() =~= fwd_branches(
        view.weights,
        view.n_max as nat,
        view.threshold as int,
    ));
}

/// The amplitude distribution of the energy-ordered code is normalized.
pub proof fn law_rts_distribution_normalized(code: RTS)
    requires
        code.wf(),
    ensures
        seq_sum(code.spec_amplitude_counts()) == code.spec_num_used() * code.trellis@.n_max,
{
    let view = code.trellis@;
    code.lemma_num_used();
    lemma_rev_symbol_totals_add_up(
        view.weights,
        view.n_max as nat,
        view.threshold as int,
        code.spec_num_used(),
        view.n_max as nat,
    );
    assert(code.spec_amplitude_counts() =~= Seq::new(
        view.weights.len(),
        |a: int|
            rev_symbol_total(
                view.weights,
                view.n_max as nat,
                code.spec_num_used(),
                a,
                view.n_max as nat,
            ),
    ));
}

/// The amplitude distribution of the energy-ordered code with all sequences
/// in use is normalized.
pub proof fn law_rts_full_distribution_normalized(code: RTS)
    requires
        code.wf(),
        code.trellis@.n_max >= 1,
    ensures
        seq_sum(code.spec_amplitude_counts_full_utilization()) == code.spec_num_sequences(),
{
    let view = code.trellis@;
    lemma_rev_total_columns(view.weights, view.n_max as nat, view.threshold as int);
    assert(code.spec_amplitude_counts_full_utilization() =~= Seq::new(
        view.weights.len(),
        |j: int| rev_total(view.weights, (view.n_max - 1) as nat, view.threshold - view.weights[j]),
    ));
}

} // verus!
