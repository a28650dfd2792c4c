use ad_ess::error::ShapingError;
use ad_ess::rts::RTS;
use rug::Integer;

#[test]
fn rts_toy_example() {
    let rts = RTS::new(4, 4, &vec![0, 1, 3, 6]).unwrap();
    let example_sequences = vec![
        vec![1, 1, 1, 1],
        vec![1, 1, 1, 3],
        vec![1, 1, 3, 1],
        vec![1, 3, 1, 1],
        vec![3, 1, 1, 1],
        vec![1, 1, 3, 3],
        vec![1, 3, 1, 3],
        vec![3, 1, 1, 3],
        vec![1, 3, 3, 1],
        vec![3, 1, 3, 1],
        vec![3, 3, 1, 1],
        vec![1, 1, 1, 5],
        vec![1, 3, 3, 3],
        vec![3, 1, 3, 3],
        vec![3, 3, 1, 3],
        vec![1, 1, 5, 1],
        vec![3, 3, 3, 1],
        vec![1, 5, 1, 1],
        vec![5, 1, 1, 1],
    ];
    for (idx, seq) in example_sequences.iter().enumerate() {
        let seq_calc = rts.sequence_for_index(&Integer::from(idx)).unwrap();
        let idx_calc = rts.index_for_sequence(seq);
        println!("{} -> {:?} | {:?} -> {}", idx, seq_calc, seq, idx_calc);
        assert_eq!(seq_calc, *seq);
        assert_eq!(idx_calc, idx);
    }
}

#[test]
fn rts_non_unique_weights_toy_example() {
    let example_sequences = vec![
        vec![1, 1, 1],
        vec![1, 1, 5],
        vec![1, 1, 3],
        vec![1, 5, 1],
        vec![1, 3, 1],
        vec![5, 1, 1],
        vec![3, 1, 1],
        vec![1, 1, 7],
        vec![1, 5, 5],
        vec![1, 3, 5],
        vec![5, 1, 5],
        vec![3, 1, 5],
        vec![1, 5, 3],
        vec![1, 3, 3],
        vec![5, 1, 3],
        vec![3, 1, 3],
        vec![1, 7, 1],
        vec![5, 5, 1],
        vec![3, 5, 1],
        vec![5, 3, 1],
        vec![3, 3, 1],
        vec![7, 1, 1],
    ];
    let rts = RTS::new(5, 3, &vec![0, 1, 1, 2]).unwrap();
    for (idx, seq) in example_sequences.iter().enumerate() {
        let seq_calc = rts.sequence_for_index(&Integer::from(idx)).unwrap();
        let idx_calc = rts.index_for_sequence(seq);
        println!("{} -> {:?} | {:?} -> {}", idx, seq_calc, seq, idx_calc);
        assert_eq!(seq_calc, *seq);
        assert_eq!(idx_calc, idx);
    }
}

#[test]
fn rts_non_unique_unordered_weights() {
    let rts = RTS::new(7, 4, &vec![2, 0, 5, 2]).unwrap();
    let num_seq = rts.num_sequences().to_usize().unwrap();
    for idx in 0..num_seq {
        let seq_calc = rts.sequence_for_index(&Integer::from(idx)).unwrap();
        let idx_calc = rts.index_for_sequence(&seq_calc);
        println!("{} -> {:?} -> {}", idx, seq_calc, idx_calc);
        assert_eq!(idx_calc, idx);
    }
}

#[test]
fn rts_multiple_non_unique_weights() {
    let rts = RTS::new(10, 4, &vec![0, 0, 1, 1, 1, 2, 3]).unwrap();
    let num_seqences = rts.num_sequences().to_u32().unwrap();
    for idx in 0..num_seqences {
        let seq = rts.sequence_for_index(&Integer::from(idx)).unwrap();
        let idx_calc = rts.index_for_sequence(&seq);
        assert_eq!(idx, idx_calc.to_u32().unwrap());
    }
}

#[test]
fn rts_encode_rejects_index_at_num_sequences() {
    let rts = RTS::new(4, 4, &vec![0, 1, 3, 6]).unwrap();
    let num_seq = rts.num_sequences();
    assert_eq!(num_seq, 19);
    assert_eq!(rts.num_bits(), 4);
    assert_eq!(rts.sequence_for_index(&num_seq), Err(ShapingError::IndexOutOfRange));
    assert_eq!(rts.sequence_for_index(&Integer::from(-1)), Err(ShapingError::IndexOutOfRange));
    assert_eq!(rts.sequence_for_index(&Integer::from(18)).unwrap(), vec![5, 1, 1, 1]);
}

#[test]
fn rts_rejects_what_cannot_be_built() {
    assert_eq!(RTS::new(4, 4, &[1, 3]).err(), Some(ShapingError::InvalidConfiguration));
    // Four symbols in four stages give 256 sequences: 8 bits, not 9.
    assert!(RTS::new(8, 4, &[0, 1, 3, 6]).is_ok());
    assert_eq!(RTS::new(9, 4, &[0, 1, 3, 6]).err(), Some(ShapingError::TooManySequences));
}

#[test]
fn rts_holds_the_lightest_sequences() {
    let weights = vec![2, 0, 2, 5];
    let rts = RTS::new(7, 4, &weights).unwrap();
    let num_seq = rts.num_sequences().to_usize().unwrap();
    assert!(num_seq >= 128);
    let mut last_weight = 0;
    for idx in 0..num_seq {
        let seq = rts.sequence_for_index(&Integer::from(idx)).unwrap();
        let weight: usize = seq.iter().map(|a| weights[(a - 1) / 2]).sum();
        assert!(weight >= last_weight);
        assert!(weight <= rts.trellis.threshold());
        last_weight = weight;
    }
}

#[test]
fn rts_tells_its_sequences_from_others() {
    let rts = RTS::new(4, 4, &vec![0, 1, 3, 6]).unwrap();
    // 19 sequences: those of weight up to 3
    assert_eq!(rts.trellis.threshold(), 3);
    assert!(rts.is_sequence(&[5, 1, 1, 1]));
    assert!(rts.is_sequence(&[3, 3, 3, 1]));
    assert!(!rts.is_sequence(&[3, 3, 3, 3]));
    assert!(!rts.is_sequence(&[7, 1, 1, 1]));
    assert!(!rts.is_sequence(&[1, 1, 1]));
    assert!(!rts.is_sequence(&[1, 1, 2, 1]));
    assert!(!rts.is_sequence(&[1, 1, 9, 1]));
    assert!(!rts.is_sequence(&[0, 1, 1, 1]));
}
