use ad_ess::ad_ess::AdEss;
use ad_ess::error::ShapingError;
use rug::Integer;

fn adess_list() -> Vec<AdEss> {
    vec![
        AdEss::new(9, 4, &vec![2, 0, 2, 5]).unwrap(),
        AdEss::new(8, 5, &vec![2, 0, 2, 5]).unwrap(), // full utilization
        AdEss::new(6, 3, &vec![5, 0, 2, 0]).unwrap(),
        AdEss::new(4, 5, &vec![0, 1, 1, 3]).unwrap(), // full utilization
        AdEss::new(30, 5, &vec![0, 1, 3, 6]).unwrap(), // ESS
    ]
}

#[test]
fn adess_encoding_decoding() {
    for adess in adess_list() {
        let num_seq = adess.num_sequences().to_u32().unwrap();
        for i in 0..num_seq {
            let seq = adess.sequence_for_index(&Integer::from(i)).unwrap();
            let decoded_i = adess.index_for_sequence(&seq).to_u32().unwrap();
            assert_eq!(i, decoded_i);
        }
    }
}

#[test]
fn adess_paper_example_counts() {
    let adess = AdEss::new(7, 4, &vec![0, 1, 3, 6]).unwrap();
    assert_eq!(adess.num_sequences(), 82);
    assert_eq!(adess.num_bits(), 6);
    assert_eq!(adess.get_weights(), vec![0, 1, 3, 6]);
}

#[test]
fn adess_first_sequences_in_order() {
    let adess = AdEss::new(7, 4, &vec![0, 1, 3, 6]).unwrap();
    assert_eq!(adess.sequence_for_index(&Integer::from(0)).unwrap(), vec![1, 1, 1, 1]);
    assert_eq!(adess.sequence_for_index(&Integer::from(1)).unwrap(), vec![1, 1, 1, 3]);
    assert_eq!(adess.sequence_for_index(&Integer::from(2)).unwrap(), vec![1, 1, 1, 5]);
    assert_eq!(adess.sequence_for_index(&Integer::from(3)).unwrap(), vec![1, 1, 1, 7]);
    assert_eq!(adess.sequence_for_index(&Integer::from(4)).unwrap(), vec![1, 1, 3, 1]);
    assert_eq!(adess.sequence_for_index(&Integer::from(81)).unwrap(), vec![7, 3, 1, 1]);
}

#[test]
fn adess_encode_rejects_index_at_num_sequences() {
    for adess in adess_list() {
        let num_seq = adess.num_sequences();
        assert_eq!(adess.sequence_for_index(&num_seq), Err(ShapingError::IndexOutOfRange));
        let last = Integer::from(&num_seq - 1);
        assert!(adess.sequence_for_index(&last).is_ok());
        assert_eq!(
            adess.sequence_for_index(&Integer::from(-1)),
            Err(ShapingError::IndexOutOfRange)
        );
    }
}

#[test]
fn adess_rejects_weights_without_zero() {
    assert_eq!(AdEss::new(7, 4, &[1, 2, 3]).err(), Some(ShapingError::InvalidConfiguration));
    assert_eq!(AdEss::new(7, 4, &[]).err(), Some(ShapingError::InvalidConfiguration));
}

#[test]
fn adess_sequences_keep_within_threshold() {
    for adess in adess_list() {
        let weights = adess.get_weights();
        let threshold = adess.trellis.threshold();
        let num_seq = adess.num_sequences().to_u32().unwrap();
        for i in 0..num_seq {
            let seq = adess.sequence_for_index(&Integer::from(i)).unwrap();
            assert_eq!(seq.len(), adess.trellis.n_max());
            let mut weight = 0;
            for a in seq {
                weight += weights[(a - 1) / 2];
                assert!(weight <= threshold);
            }
        }
    }
}
