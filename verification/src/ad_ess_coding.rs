//! The threshold-bounded code between strings of bits and sequences of
//! amplitudes.

use crate::ad_ess::AdEss;
use crate::amplitudes::{is_amplitudes_of, symbols_of};
use crate::bigint::{big_add, big_bit, big_decimal, big_from, big_shl, decimal_numeral, int_val};
use crate::bits::{bit_of, bits_value, is_bits_of};
use crate::counting::{fwd_rank, fwd_unrank, is_symbols, lemma_fwd_rank_range, weight_of};
use crate::error::ShapingError;
use rug::Integer;
use vstd::arithmetic::power2::{lemma2_to64, pow2};
use vstd::prelude::*;

verus! {

impl AdEss {
    /// Whether `sequence` is a sequence of the code.
    pub fn is_sequence(&self, sequence: &[usize]) -> (valid: bool)
        requires
            self.wf(),
        ensures
            valid == self.is_code_sequence(sequence@),
    {
        let ghost view = self.trellis@;
        let ghost w = view.weights;
        let ghost s = symbols_of(sequence@);
        let n_max = self.trellis.n_max();
        let threshold = self.trellis.threshold();
        let weights = self.trellis.get_weights();
        if sequence.len() != n_max {
            return false;
        }
        let mut weight: usize = 0;
        let mut k: usize = 0;
        proof {
            assert(s.take(0) =~= Seq::<int>::empty());
        }
        while k < sequence.len()
            invariant
                k <= sequence@.len(),
                sequence@.len() == n_max,
                self.wf(),
                view == self.trellis@,
                w == view.weights,
                n_max == view.n_max,
                weights@ == w,
                s == symbols_of(sequence@),
                threshold == view.threshold,
                weight <= threshold,
                weight == weight_of(w, s.take(k as int)),
                forall|j: int| 0 <= j < k ==> #[trigger] sequence@[j] % 2 == 1,
                forall|j: int| 0 <= j < k ==> 0 <= #[trigger] s[j] < w.len(),
            decreases sequence@.len() - k,
        {
            let amplitude: usize = sequence[k];
            if amplitude % 2 != 1 {
                return false;
            }
            let symbol: usize = (amplitude - 1) / 2;
            if symbol >= weights.len() {
                proof {
                    assert(s[k as int] == symbol);
                }
                return false;
            }
            proof {
                assert(s[k as int] == symbol);
                assert(s.take(k + 1).drop_last() =~= s.take(k as int));
            }
            if weights[symbol] > threshold - weight {
                proof {
                    // The weight passes the threshold here and does not
                    // come down again.
                    if is_symbols(w, s) {
                        crate::counting::lemma_weight_prefix(w, s, k + 1);
                    }
                }
                return false;
            }
            weight = weight + weights[symbol];
            k += 1;
        }
        proof {
            assert(s.take(k as int) =~= s);
        }
        true
    }

    /// The number that `index_bits` writes, the most significant bit first.
    fn index_of_bits(index_bits: &[u8]) -> (index: Integer)
        ensures
            int_val(index) == bits_value(index_bits@.map_values(|b: u8| b as int)),
            int_val(index) >= 0,
    {
        let ghost bits = index_bits@.map_values(|b: u8| b as int);
        let mut index = big_from(0);
        let mut k: usize = 0;
        proof {
            assert(bits.take(0) =~= Seq::<int>::empty());
        }
        while k < index_bits.len()
            invariant
                k <= index_bits@.len(),
                bits == index_bits@.map_values(|b: u8| b as int),
                int_val(index) == bits_value(bits.take(k as int)),
                int_val(index) >= 0,
            decreases index_bits@.len() - k,
        {
            proof {
                assert(bits.take(k + 1).drop_last() =~= bits.take(k as int));
                lemma2_to64();
            }
            let bit = big_from(index_bits[k] as usize);
            let shifted = big_shl(index, 1);
            index = big_add(&shifted, &bit);
            k += 1;
        }
        proof {
            assert(bits.take(k as int) =~= bits);
        }
        index
    }

    /// The number that `index_bits` writes, the most significant bit first.
    fn index_of_wide_bits(index_bits: &[u32]) -> (index: Integer)
        ensures
            int_val(index) == bits_value(index_bits@.map_values(|b: u32| b as int)),
            int_val(index) >= 0,
    {
        let ghost bits = index_bits@.map_values(|b: u32| b as int);
        let mut index = big_from(0);
        let mut k: usize = 0;
        proof {
            assert(bits.take(0) =~= Seq::<int>::empty());
        }
        while k < index_bits.len()
            invariant
                k <= index_bits@.len(),
                bits == index_bits@.map_values(|b: u32| b as int),
                int_val(index) == bits_value(bits.take(k as int)),
                int_val(index) >= 0,
            decreases index_bits@.len() - k,
        {
            proof {
                assert(bits.take(k + 1).drop_last() =~= bits.take(k as int));
                lemma2_to64();
            }
            let bit = big_from(index_bits[k] as usize);
            let shifted = big_shl(index, 1);
            index = big_add(&shifted, &bit);
            k += 1;
        }
        proof {
            assert(bits.take(k as int) =~= bits);
        }
        index
    }

    /// The lowest `self.num_bits()` bits of `index`, the most significant
    /// first.
    fn bits_of_index(&self, index: &Integer) -> (bits: Vec<u32>)
        requires
            self.wf(),
            int_val(*index) >= 0,
        ensures
            pow2(bits@.len()) <= self.spec_num_sequences() < pow2(bits@.len() + 1),
            is_bits_of(bits@, int_val(*index)),
    {
        let num_bits: u32 = self.num_bits();
        let mut bits_vec: Vec<u32> = Vec::new();
        let mut i: u32 = 0;
        while i < num_bits
            invariant
                i <= num_bits,
                int_val(*index) >= 0,
                bits_vec@.len() == i,
                forall|j: int|
                    0 <= j < i ==> #[trigger] bits_vec@[j] == bit_of(
                        int_val(*index),
                        (num_bits - 1 - j) as nat,
                    ),
            decreases num_bits - i,
        {
            let place: u32 = num_bits - 1 - i;
            if big_bit(index, place) {
                bits_vec.push(1);
            } else {
                bits_vec.push(0);
            }
            i += 1;
        }
        bits_vec
    }

    /// Returns the amplitude sequence for the given bits
    ///
    /// The bits write the index of the sequence, the most significant first.
    /// The values in `index_bits` should be either `1` or `0`.
    pub fn encode(&self, index_bits: &[u8]) -> (r: Result<Vec<usize>, ShapingError>)
        requires
            self.wf(),
        ensures
            r is Ok <==> bits_value(index_bits@.map_values(|b: u8| b as int))
                < self.spec_num_sequences(),
            r matches Err(e) ==> e == ShapingError::IndexOutOfRange,
            r matches Ok(amplitudes) ==> is_amplitudes_of(
                amplitudes@,
                fwd_unrank(
                    self.trellis@.weights,
                    self.trellis@.n_max as nat,
                    self.trellis@.threshold as int,
                    bits_value(index_bits@.map_values(|b: u8| b as int)),
                ),
            ),
    {
        // convert vec of index bits to Integer
        let index = AdEss::index_of_bits(index_bits);
        self.sequence_for_index(&index)
    }

    /// Returns the amplitude sequences for multiple given bit strings
    ///
    /// The values in `multi_index_bits` should be either `1` or `0`.
    pub fn multi_encode(&self, multi_index_bits: &[Vec<u32>]) -> (r: Result<
        Vec<Vec<usize>>,
        ShapingError,
    >)
        requires
            self.wf(),
        ensures
            r is Ok <==> forall|k: int|
                0 <= k < multi_index_bits@.len() ==> bits_value(
                    (#[trigger] multi_index_bits@[k])@.map_values(|b: u32| b as int),
                ) < self.spec_num_sequences(),
            r matches Err(e) ==> e == ShapingError::IndexOutOfRange,
            r matches Ok(sequences) ==> sequences@.len() == multi_index_bits@.len() && forall|k: int|
                0 <= k < sequences@.len() ==> is_amplitudes_of(
                    (#[trigger] sequences@[k])@,
                    fwd_unrank(
                        self.trellis@.weights,
                        self.trellis@.n_max as nat,
                        self.trellis@.threshold as int,
                        bits_value(multi_index_bits@[k]@.map_values(|b: u32| b as int)),
                    ),
                ),
    {
        let mut sequences: Vec<Vec<usize>> = Vec::new();
        let mut k: usize = 0;
        while k < multi_index_bits.len()
            invariant
                k <= multi_index_bits@.len(),
                self.wf(),
                sequences@.len() == k,
                forall|j: int|
                    0 <= j < k ==> bits_value(
                        (#[trigger] multi_index_bits@[j])@.map_values(|b: u32| b as int),
                    ) < self.spec_num_sequences(),
                forall|j: int|
                    0 <= j < k ==> is_amplitudes_of(
                        (#[trigger] sequences@[j])@,
                        fwd_unrank(
                            self.trellis@.weights,
                            self.trellis@.n_max as nat,
                            self.trellis@.threshold as int,
                            bits_value(multi_index_bits@[j]@.map_values(|b: u32| b as int)),
                        ),
                    ),
            decreases multi_index_bits@.len() - k,
        {
            // convert vec of index bits to Integer
            let index = AdEss::index_of_wide_bits(multi_index_bits[k].as_slice());
            match self.sequence_for_index(&index) {
                Ok(sequence) => {
                    sequences.push(sequence);
                },
                Err(e) => {
                    return Err(e);
                },
            }
            k += 1;
        }
        Ok(sequences)
    }

    /// Returns the index corresponding to the provided amplitude sequence as
    /// `self.num_bits()` bits, the most significant first
    pub fn decode(&self, sequence: &[usize]) -> (r: Result<Vec<u32>, ShapingError>)
        requires
            self.wf(),
        ensures
            r is Ok <==> self.is_code_sequence(sequence@),
            r matches Err(e) ==> e == ShapingError::InvalidSequence,
            r matches Ok(bits) ==> pow2(bits@.len()) <= self.spec_num_sequences() < pow2(
                bits@.len() + 1,
            ) && is_bits_of(
                bits@,
                fwd_rank(
                    self.trellis@.weights,
                    self.trellis@.threshold as int,
                    symbols_of(sequence@),
                ),
            ),
    {
        if !self.is_sequence(sequence) {
            return Err(ShapingError::InvalidSequence);
        }
        let index = self.index_for_sequence(sequence);
        proof {
            lemma_fwd_rank_range(
                self.trellis@.weights,
                self.trellis@.n_max as nat,
                self.trellis@.threshold as int,
                symbols_of(sequence@),
            );
        }
        Ok(self.bits_of_index(&index))
    }

    /// Returns the indexes corresponding to the provided amplitude sequences,
    /// each as `self.num_bits()` bits, the most significant first
    pub fn multi_decode(&self, sequences: &[Vec<usize>]) -> (r: Result<Vec<Vec<u32>>, ShapingError>)
        requires
            self.wf(),
        ensures
            r is Ok <==> forall|k: int|
                0 <= k < sequences@.len() ==> self.is_code_sequence((#[trigger] sequences@[k])@),
            r matches Err(e) ==> e == ShapingError::InvalidSequence,
            r matches Ok(bit_vectors) ==> bit_vectors@.len() == sequences@.len() && forall|k: int|
                0 <= k < bit_vectors@.len() ==> pow2((#[trigger] bit_vectors@[k])@.len())
                    <= self.spec_num_sequences() < pow2(bit_vectors@[k]@.len() + 1) && is_bits_of(
                    bit_vectors@[k]@,
                    fwd_rank(
                        self.trellis@.weights,
                        self.trellis@.threshold as int,
                        symbols_of(sequences@[k]@),
                    ),
                ),
    {
        let mut bit_vectors: Vec<Vec<u32>> = Vec::new();
        let mut k: usize = 0;
        while k < sequences.len()
            invariant
                k <= sequences@.len(),
                self.wf(),
                bit_vectors@.len() == k,
                forall|j: int| 0 <= j < k ==> self.is_code_sequence((#[trigger] sequences@[j])@),
                forall|j: int|
                    0 <= j < k ==> pow2((#[trigger] bit_vectors@[j])@.len())
                        <= self.spec_num_sequences() < pow2(bit_vectors@[j]@.len() + 1) && is_bits_of(
                        bit_vectors@[j]@,
                        fwd_rank(
                            self.trellis@.weights,
                            self.trellis@.threshold as int,
                            symbols_of(sequences@[j]@),
                        ),
                    ),
            decreases sequences@.len() - k,
        {
            match self.decode(sequences[k].as_slice()) {
                Ok(bits) => {
                    bit_vectors.push(bits);
                },
                Err(e) => {
                    return Err(e);
                },
            }
            k += 1;
        }
        Ok(bit_vectors)
    }

    /// Returns the number of bits encoded per amplitude sequence
    pub fn num_data_bits(&self) -> (bits: u32)
        requires
            self.wf(),
        ensures
            pow2(bits as nat) <= self.spec_num_sequences() < pow2((bits + 1) as nat),
    {
        self.num_bits()
    }

    /// Returns the maximum number of possible amplitude sequences as a
    /// decimal numeral
    ///
    /// WARNING: Effect of limiting the used indexes to a power of two is not regarded!!!
    pub fn num_sequences_possible(&self) -> (numeral: String)
        requires
            self.wf(),
        ensures
            numeral@ == decimal_numeral(self.spec_num_sequences()),
    {
        big_decimal(&self.num_sequences())
    }
}

} // verus!
