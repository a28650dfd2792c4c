//! The distribution of the amplitudes of a code, in whole numbers: how often
//! each amplitude occurs, and among how many.

use crate::bigint::{big_add, big_clone, big_from, big_mul_small, int_val, int_vals};
use crate::sums::{lemma_sum_push, seq_sum};
use rug::Integer;
use vstd::prelude::*;

verus! {

/// How often each amplitude occurs among `total` amplitudes: entry `i` of
/// `counts` is the number of occurrences of amplitude `2 i + 1`, and the
/// probability of that amplitude is that number divided by `total`.
pub struct AmplitudeDistribution {
    pub counts: Vec<Integer>,
    pub total: Integer,
}

/// The squared amplitudes of the symbols, each times the number of its
/// occurrences.
pub open spec fn energy_terms(counts: Seq<int>) -> Seq<int> {
    Seq::new(counts.len(), |i: int| (2 * i + 1) * (2 * i + 1) * counts[i])
}

impl AmplitudeDistribution {
    /// The numbers of occurrences.
    pub open spec fn spec_counts(&self) -> Seq<int> {
        int_vals(self.counts@)
    }

    /// The energy of all amplitudes that the distribution counts: the sum of
    /// their squares.  Divided by `total` it is the average energy.
    pub fn energy(&self) -> (sum: Integer)
        requires
            2 * self.counts@.len() <= usize::MAX,
        ensures
            int_val(sum) == seq_sum(energy_terms(self.spec_counts())),
    {
        let ghost terms = energy_terms(self.spec_counts());
        let mut sum = big_from(0);
        let mut i: usize = 0;
        proof {
            assert(terms.take(0) =~= Seq::<int>::empty());
        }
        while i < self.counts.len()
            invariant
                i <= self.counts@.len(),
                2 * self.counts@.len() <= usize::MAX,
                terms == energy_terms(self.spec_counts()),
                int_val(sum) == seq_sum(terms.take(i as int)),
            decreases self.counts@.len() - i,
        {
            let amplitude: usize = 2 * i + 1;
            let once = big_mul_small(&self.counts[i], amplitude);
            let twice = big_mul_small(&once, amplitude);
            proof {
                assert(terms.take(i + 1) =~= terms.take(i as int).push(terms[i as int]));
                lemma_sum_push(terms.take(i as int), terms[i as int]);
                assert(int_val(twice) == terms[i as int]) by (nonlinear_arith)
                    requires
                        int_val(twice) == int_val(self.counts@[i as int]) * amplitude * amplitude,
                        amplitude == 2 * i + 1,
                        terms[i as int] == (2 * i + 1) * (2 * i + 1) * int_val(self.counts@[i as int]),
                ;
            }
            sum = big_add(&sum, &twice);
            i += 1;
        }
        proof {
            assert(terms.take(i as int) =~= terms);
        }
        sum
    }

    /// A copy of the total.
    pub fn total(&self) -> (total: Integer)
        ensures
            int_val(total) == int_val(self.total),
    {
        big_clone(&self.total)
    }
}

} // verus!
