use ad_ess::ad_ess::AdEss;
use ad_ess::rts::RTS;
use rug::Integer;

/// Every sequence of `n_max` symbols of a weight up to `threshold`.
fn all_sequences(weights: &[usize], n_max: usize, threshold: usize) -> Vec<Vec<usize>> {
    let mut sequences: Vec<Vec<usize>> = vec![vec![]];
    for _ in 0..n_max {
        let mut longer = vec![];
        for sequence in &sequences {
            for symbol in 0..weights.len() {
                let mut next = sequence.clone();
                next.push(symbol);
                if next.iter().map(|&s| weights[s]).sum::<usize>() <= threshold {
                    longer.push(next);
                }
            }
        }
        sequences = longer;
    }
    sequences
}

fn amplitudes(symbols: &[usize]) -> Vec<usize> {
    symbols.iter().map(|s| 2 * s + 1).collect()
}

fn configurations() -> Vec<(usize, usize, Vec<usize>)> {
    vec![
        (7, 4, vec![0, 1, 3, 6]),
        (9, 4, vec![2, 0, 2, 5]),
        (6, 3, vec![5, 0, 2, 0]),
        (4, 5, vec![0, 1, 1, 3]),
        (3, 4, vec![0, 0, 1, 1, 1, 2, 3]),
        (0, 3, vec![0, 4]),
        (5, 3, vec![0]),
        (2, 1, vec![3, 0, 2, 1]),
    ]
}

#[test]
fn adess_enumerates_stage_by_stage_in_successor_order() {
    for (threshold, n_max, weights) in configurations() {
        let mut expected = all_sequences(&weights, n_max, threshold);
        // lighter symbols first, of equally heavy ones the smaller index first,
        // the first stage counting most
        expected.sort_by_key(|s| s.iter().map(|&i| (weights[i], i)).collect::<Vec<_>>());
        let adess = AdEss::new(threshold, n_max, &weights).unwrap();
        assert_eq!(adess.num_sequences(), expected.len());
        for (index, symbols) in expected.iter().enumerate() {
            let sequence = adess.sequence_for_index(&Integer::from(index)).unwrap();
            assert_eq!(sequence, amplitudes(symbols));
            assert_eq!(adess.index_for_sequence(&sequence), index);
        }
    }
}

#[test]
fn rts_enumerates_by_weight_then_backwards_in_predecessor_order() {
    for (threshold, n_max, weights) in configurations() {
        let num_bits = {
            let count = all_sequences(&weights, n_max, threshold).len();
            (usize::BITS - 1 - count.leading_zeros()) as usize
        };
        let rts = RTS::new(num_bits, n_max, &weights).unwrap();
        let rts_threshold = rts.trellis.threshold();
        assert!(rts_threshold <= threshold);
        let mut expected = all_sequences(&weights, n_max, rts_threshold);
        // lighter sequences first; of equally heavy ones the last stage counts
        // most, heavier symbols first, of equally heavy ones the larger index first
        expected.sort_by_key(|s| {
            let weight: usize = s.iter().map(|&i| weights[i]).sum();
            let backwards: Vec<(usize, usize)> = s
                .iter()
                .rev()
                .map(|&i| (usize::MAX - weights[i], usize::MAX - i))
                .collect();
            (weight, backwards)
        });
        assert_eq!(rts.num_sequences(), expected.len());
        assert!(expected.len() >= 1 << num_bits);
        for (index, symbols) in expected.iter().enumerate() {
            let sequence = rts.sequence_for_index(&Integer::from(index)).unwrap();
            assert_eq!(sequence, amplitudes(symbols));
            assert_eq!(rts.index_for_sequence(&sequence), index);
        }
    }
}

#[test]
fn distributions_count_what_the_used_sequences_hold() {
    for (threshold, n_max, weights) in configurations() {
        let adess = AdEss::new(threshold, n_max, &weights).unwrap();
        let used = 1usize << adess.num_bits();
        let mut counts = vec![0usize; weights.len()];
        for index in 0..used {
            for amplitude in adess.sequence_for_index(&Integer::from(index)).unwrap() {
                counts[(amplitude - 1) / 2] += 1;
            }
        }
        let distribution = adess.amplitude_distribution();
        assert_eq!(distribution.counts, counts);
        assert_eq!(distribution.total, used * n_max);

        let rts = RTS::new(adess.num_bits() as usize, n_max, &weights).unwrap();
        let used = 1usize << rts.num_bits();
        let mut counts = vec![0usize; weights.len()];
        for index in 0..used {
            for amplitude in rts.sequence_for_index(&Integer::from(index)).unwrap() {
                counts[(amplitude - 1) / 2] += 1;
            }
        }
        let distribution = rts.amplitude_distribution();
        assert_eq!(distribution.counts, counts);
        assert_eq!(distribution.total, used * n_max);
    }
}

#[test]
fn full_utilization_counts_one_stage_of_all_sequences() {
    for (threshold, n_max, weights) in configurations() {
        let sequences = all_sequences(&weights, n_max, threshold);
        let adess = AdEss::new(threshold, n_max, &weights).unwrap();
        let full = adess.amplitude_distribution_full_utilization();
        assert_eq!(full.total, sequences.len());
        for stage in 0..n_max {
            let mut counts = vec![0usize; weights.len()];
            for sequence in &sequences {
                counts[sequence[stage]] += 1;
            }
            assert_eq!(full.counts, counts);
        }
    }
}
