use ad_ess::ad_ess::AdEss;
use ad_ess::error::ShapingError;
use ad_ess::rts::RTS;
use rug::rand::RandState;
use rug::{Complete, Integer, Rational};

fn calc_weights(distribution: &[f32], res_factor: f32) -> Vec<usize> {
    let weights: Vec<f32> = distribution
        .iter()
        .map(|p| -p.log2() * res_factor)
        .collect();
    let min_weight = weights.iter().fold(f32::INFINITY, |a, &b| a.min(b));
    weights
        .iter()
        .map(|weight| (weight - min_weight + 0.5) as usize)
        .collect()
}

#[test]
fn average_energy_montecarlo() {
    let n_max = 224;
    let weights = calc_weights(&[0.3229397, 0.14510616, 0.02929643, 0.00265771], 10.0);
    let adess = AdEss::new_for_distribution_num_bits(336, 224, &weights).unwrap();

    let (energy, amplitudes) = adess.average_energy();
    let e_avg = Rational::from((energy, amplitudes)).to_f32();
    println!("Calculated e_avg: {}", e_avg);

    let mut rand = RandState::new();
    let num_sequences = Integer::u_pow_u(2, adess.num_bits()).complete();
    let mut e_acc = 0f64;
    let montecarlo_n = 1000;
    for _ in 0..montecarlo_n {
        let random_index = Integer::from(num_sequences.random_below_ref(&mut rand));
        let seq = adess.sequence_for_index(&random_index).unwrap();
        let seq_energy: usize = seq.iter().map(|a| a * a).sum();
        e_acc += seq_energy as f64;
    }
    let e_avg_montecarlo = e_acc / montecarlo_n as f64 / n_max as f64;
    println!("Montecarlo estimated e_avg: {}", e_avg_montecarlo);

    let tolerance = 0.001;
    let upper = e_avg as f64 * (1.0 + tolerance);
    let lower = e_avg as f64 * (1.0 - tolerance);
    assert!(lower < e_avg_montecarlo && e_avg_montecarlo < upper);
}

#[test]
fn weights_of_the_montecarlo_distribution() {
    assert_eq!(
        calc_weights(&[0.3229397, 0.14510616, 0.02929643, 0.00265771], 10.0),
        vec![0, 12, 35, 69]
    );
}

#[test]
fn new_for_num_bits_takes_the_smallest_threshold() {
    let weights = vec![0, 1, 3, 6];
    // 2^6 = 64 sequences need threshold 7 (82 sequences); threshold 6 holds 65 too
    let adess = AdEss::new_for_distribution_num_bits(6, 4, &weights).unwrap();
    assert!(adess.num_sequences() >= 64);
    let threshold = adess.trellis.threshold();
    assert!(threshold > 0);
    let smaller = AdEss::new(threshold - 1, 4, &weights).unwrap();
    assert!(smaller.num_sequences() < 64);
    assert_eq!(adess.num_bits(), 6);
    // four symbols in four stages: 256 sequences at most
    assert!(AdEss::new_for_distribution_num_bits(8, 4, &weights).is_ok());
    assert_eq!(
        AdEss::new_for_distribution_num_bits(9, 4, &weights).err(),
        Some(ShapingError::TooManySequences)
    );
    assert_eq!(
        AdEss::new_for_distribution_num_bits(3, 4, &[1, 2]).err(),
        Some(ShapingError::InvalidConfiguration)
    );
    let by_threshold = AdEss::new_for_distribution_threshold(7, 4, &weights).unwrap();
    assert_eq!(by_threshold.num_sequences(), 82);
}

#[test]
fn new_for_num_bits_agrees_with_rts() {
    let weights = vec![2, 0, 2, 5];
    for num_bits in 0..8 {
        let adess = AdEss::new_for_distribution_num_bits(num_bits, 4, &weights).unwrap();
        let rts = RTS::new(num_bits, 4, &weights).unwrap();
        assert_eq!(adess.trellis.threshold(), rts.trellis.threshold());
        assert_eq!(adess.num_sequences(), rts.num_sequences());
    }
}

#[test]
fn encode_and_decode_bits() {
    let adess = AdEss::new(7, 4, &vec![0, 1, 3, 6]).unwrap();
    assert_eq!(adess.num_data_bits(), 6);
    assert_eq!(adess.num_sequences_possible(), "82");
    assert_eq!(adess.encode(&[0, 0, 0, 0, 0, 0]).unwrap(), vec![1, 1, 1, 1]);
    assert_eq!(adess.encode(&[0, 0, 0, 1, 0, 0]).unwrap(), vec![1, 1, 3, 1]);
    assert_eq!(adess.decode(&[1, 1, 3, 1]).unwrap(), vec![0, 0, 0, 1, 0, 0]);
    for index in 0..64u32 {
        let bits: Vec<u8> = (0..6).rev().map(|k| ((index >> k) & 1) as u8).collect();
        let sequence = adess.encode(&bits).unwrap();
        assert_eq!(sequence, adess.sequence_for_index(&Integer::from(index)).unwrap());
        let decoded = adess.decode(&sequence).unwrap();
        let wide: Vec<u32> = bits.iter().map(|&b| b as u32).collect();
        assert_eq!(decoded, wide);
    }
    // 81 = 0b1010001 is the last index, 82 the first that is none
    assert_eq!(adess.encode(&[1, 0, 1, 0, 0, 0, 1]).unwrap(), vec![7, 3, 1, 1]);
    assert_eq!(adess.encode(&[1, 0, 1, 0, 0, 1, 0]), Err(ShapingError::IndexOutOfRange));
    // the index of a sequence beyond the bits keeps its low bits only
    assert_eq!(adess.decode(&[7, 3, 1, 1]).unwrap(), vec![0, 1, 0, 0, 0, 1]);
}

#[test]
fn decode_rejects_what_is_no_code_sequence() {
    let adess = AdEss::new(7, 4, &vec![0, 1, 3, 6]).unwrap();
    assert!(adess.is_sequence(&[7, 3, 1, 1]));
    // too heavy: 6 + 3
    assert!(!adess.is_sequence(&[7, 5, 1, 1]));
    assert_eq!(adess.decode(&[7, 5, 1, 1]), Err(ShapingError::InvalidSequence));
    // wrong length
    assert_eq!(adess.decode(&[1, 1, 1]), Err(ShapingError::InvalidSequence));
    assert_eq!(adess.decode(&[1, 1, 1, 1, 1]), Err(ShapingError::InvalidSequence));
    // no amplitudes of the code
    assert_eq!(adess.decode(&[1, 2, 1, 1]), Err(ShapingError::InvalidSequence));
    assert_eq!(adess.decode(&[1, 0, 1, 1]), Err(ShapingError::InvalidSequence));
    assert_eq!(adess.decode(&[1, 9, 1, 1]), Err(ShapingError::InvalidSequence));
}

#[test]
fn multi_encode_and_multi_decode() {
    let adess = AdEss::new(7, 4, &vec![0, 1, 3, 6]).unwrap();
    let bits = vec![vec![0, 0, 0, 0, 0, 0], vec![0, 0, 0, 1, 0, 0], vec![1, 1, 1, 1, 1, 1]];
    let sequences = adess.multi_encode(&bits).unwrap();
    assert_eq!(sequences.len(), 3);
    assert_eq!(sequences[0], vec![1, 1, 1, 1]);
    assert_eq!(sequences[1], vec![1, 1, 3, 1]);
    assert_eq!(sequences[2], adess.sequence_for_index(&Integer::from(63)).unwrap());
    assert_eq!(adess.multi_decode(&sequences).unwrap(), bits);
    let too_large = vec![vec![0, 0, 0, 0, 0, 0], vec![1, 0, 1, 0, 0, 1, 0]];
    assert_eq!(adess.multi_encode(&too_large), Err(ShapingError::IndexOutOfRange));
    let invalid = vec![vec![1, 1, 1, 1], vec![7, 7, 1, 1]];
    assert_eq!(adess.multi_decode(&invalid), Err(ShapingError::InvalidSequence));
    assert_eq!(adess.multi_encode(&[]).unwrap(), Vec::<Vec<usize>>::new());
}

#[test]
fn optimal_threshold_candidates_around_the_estimate() {
    let weights = vec![0, 1, 3, 6];
    // sequences of four symbols up to weight 0, 1, 2, ...: 1, 5, 11, 19, 32, 44, 60, 82, ...
    let candidates =
        AdEss::optimal_threshold_candidates(4, &weights, 12, &Integer::from(30), 2).unwrap();
    assert_eq!(candidates, vec![2, 3, 4, 5]);
    let candidates =
        AdEss::optimal_threshold_candidates(4, &weights, 12, &Integer::from(32), 1).unwrap();
    assert_eq!(candidates, vec![3, 4]);
    let candidates =
        AdEss::optimal_threshold_candidates(4, &weights, 5, &Integer::from(33), 3).unwrap();
    assert_eq!(candidates, vec![2, 3, 4, 5]);
    // fewer weight levels below the estimate than the width: nothing to test
    let candidates =
        AdEss::optimal_threshold_candidates(4, &weights, 12, &Integer::from(5), 2).unwrap();
    assert!(candidates.is_empty());
    assert_eq!(
        AdEss::optimal_threshold_candidates(4, &weights, 5, &Integer::from(45), 2),
        Err(ShapingError::SearchExhausted)
    );
    assert_eq!(
        AdEss::optimal_threshold_candidates(4, &[1, 3], 5, &Integer::from(2), 2),
        Err(ShapingError::InvalidConfiguration)
    );
}

#[test]
fn error_messages() {
    assert_eq!(ShapingError::IndexOutOfRange.message(), "Index out of range!");
    assert_eq!(ShapingError::TooManySequences.message(), "`num_sequences` is to large");
    assert_eq!(
        ShapingError::TrellisFull.message(),
        "Impossible to add another weight level, trellis to small"
    );
    assert_eq!(
        ShapingError::SearchExhausted.message(),
        "The calculated fraction of the reverse trellis is to small!"
    );
    assert!(!ShapingError::InvalidConfiguration.message().is_empty());
    assert!(!ShapingError::InvalidSequence.message().is_empty());
}

#[test]
fn codes_with_no_stage_hold_the_empty_sequence() {
    let adess = AdEss::new(3, 0, &[0, 2]).unwrap();
    assert_eq!(adess.num_sequences(), 1);
    assert_eq!(adess.num_bits(), 0);
    assert_eq!(adess.sequence_for_index(&Integer::from(0)).unwrap(), Vec::<usize>::new());
    assert_eq!(adess.index_for_sequence(&[]), 0);
    let rts = RTS::new(0, 0, &[0, 2]).unwrap();
    assert_eq!(rts.num_sequences(), 1);
    assert_eq!(rts.sequence_for_index(&Integer::from(0)).unwrap(), Vec::<usize>::new());
    assert_eq!(rts.index_for_sequence(&[]), 0);
}
