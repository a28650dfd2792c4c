use ad_ess::ad_ess::AdEss;
use ad_ess::distribution::AmplitudeDistribution;
use rug::{Complete, Integer, Rational};

fn probabilities(distribution: &AmplitudeDistribution) -> Vec<f32> {
    distribution
        .counts
        .iter()
        .map(|count| Rational::from((count, &distribution.total)).to_f32())
        .collect()
}

fn average_energy(adess: &AdEss) -> f32 {
    probabilities(&adess.amplitude_distribution())
        .iter()
        .enumerate()
        .map(|(w_idx, p)| ((w_idx * 2 + 1) as f32, p))
        .map(|(a, p)| a * a * p)
        .sum::<f32>()
}

fn adess_list() -> Vec<AdEss> {
    vec![
        AdEss::new(9, 4, &vec![2, 0, 2, 5]).unwrap(),
        AdEss::new(8, 5, &vec![2, 0, 2, 5]).unwrap(), // full utilization
        AdEss::new(6, 3, &vec![5, 0, 2, 0]).unwrap(),
        AdEss::new(4, 5, &vec![0, 1, 1, 3]).unwrap(), // full utilization
        AdEss::new(30, 5, &vec![0, 1, 3, 6]).unwrap(), // ESS
    ]
}

#[test]
fn amplitude_distribution_paper_example() {
    let adess = AdEss::new(7, 4, &vec![0, 1, 3, 6]).unwrap();
    let distribution = adess.amplitude_distribution();
    let amp_dist = probabilities(&distribution);
    let amp_frequencies: Vec<f32> = amp_dist
        .iter()
        .map(|p| {
            p * Integer::u_pow_u(2, adess.num_bits()).complete().to_f32()
                * adess.trellis.n_max() as f32
        })
        .collect();
    println!("{:?}", amp_dist);
    println!("{:?}", amp_frequencies);

    assert_eq!(amp_frequencies, vec![114.0, 84.0, 46.0, 12.0]);
    assert_eq!(distribution.counts, vec![114, 84, 46, 12]);
    assert_eq!(distribution.total, 256);
}

#[test]
fn average_energy_paper_example() {
    let adess = AdEss::new(7, 4, &vec![0, 1, 3, 6]).unwrap();
    let mut e_acc = 0;
    let num_sequences_used = 2_i32.pow(adess.num_bits());
    for idx in 0..num_sequences_used {
        let seq = adess.sequence_for_index(&Integer::from(idx)).unwrap();
        let seq_energy: usize = seq.iter().map(|a| a * a).sum();
        e_acc += seq_energy;
    }
    let e_avg = e_acc as f32 / num_sequences_used as f32 / adess.trellis.n_max() as f32;
    assert_eq!(average_energy(&adess), e_avg);
    let (energy, amplitudes) = adess.average_energy();
    assert_eq!(energy, e_acc);
    assert_eq!(energy, 114 + 84 * 9 + 46 * 25 + 12 * 49);
    assert_eq!(amplitudes, 256);
}

#[test]
fn adess_amplitude_distribution_full_utilization() {
    for adess in adess_list() {
        let num_seq = adess.num_sequences().to_usize().unwrap();
        let mut a_counts = vec![0, 0, 0, 0];
        for i in 0..num_seq {
            let seq = adess.sequence_for_index(&Integer::from(i)).unwrap();
            for a in seq {
                let a_idx = (a - 1) / 2;
                a_counts[a_idx] += 1;
            }
        }
        let num_amplitudes = num_seq * adess.trellis.n_max();
        let full = adess.amplitude_distribution_full_utilization();
        assert_eq!(full.total, num_seq);
        probabilities(&full)
            .iter()
            .map(|p| p * num_amplitudes as f32)
            .zip(a_counts.clone())
            .for_each(|(from_method_call, from_for_loop)| {
                assert_eq!(from_method_call.round() as usize, from_for_loop);
            });
        for (count, from_for_loop) in full.counts.iter().zip(a_counts) {
            assert_eq!(Integer::from(count * adess.trellis.n_max()), from_for_loop);
        }
    }
}

#[test]
fn adess_amplitude_distribution() {
    for adess in adess_list() {
        let num_bits = adess.num_bits();
        let num_seq = 2usize.pow(num_bits);

        let mut a_counts = vec![0, 0, 0, 0];
        for i in 0..num_seq {
            let seq = adess.sequence_for_index(&Integer::from(i)).unwrap();
            for a in seq {
                let a_idx = (a - 1) / 2;
                a_counts[a_idx] += 1;
            }
        }

        let num_amplitudes = num_seq * adess.trellis.n_max();
        let distribution = adess.amplitude_distribution();
        probabilities(&distribution)
            .iter()
            .map(|p| p * num_amplitudes as f32)
            .zip(a_counts.clone())
            .for_each(|(from_method_call, from_for_loop)| {
                assert_eq!(from_method_call.round() as usize, from_for_loop);
            });
        assert_eq!(distribution.counts, a_counts);
        assert_eq!(distribution.total, num_amplitudes);
        let sum: Integer = distribution.counts.iter().sum();
        assert_eq!(sum, distribution.total);
    }
}

#[test]
fn adess_average_energy() {
    for adess in adess_list() {
        let num_bits = adess.num_bits();
        let num_seq = 2usize.pow(num_bits);

        let mut energy = 0;
        for i in 0..num_seq {
            let seq = adess.sequence_for_index(&Integer::from(i)).unwrap();
            for a in seq {
                energy += a * a;
            }
        }

        let num_amplitudes = (num_seq * adess.trellis.n_max()) as f32;
        let avg_energy = average_energy(&adess);

        assert_eq!(energy, (num_amplitudes * avg_energy).round() as usize);
        let (energy_sum, amplitudes) = adess.average_energy();
        assert_eq!(energy_sum, energy);
        assert_eq!(amplitudes, num_seq * adess.trellis.n_max());
    }
}

#[test]
fn rts_amplitude_distribution_full_utilization_toy_example() {
    let rts = ad_ess::rts::RTS::new(8, 5, &vec![0, 1, 1, 3]).unwrap();
    let num_seqences = rts.num_sequences().to_u32().unwrap();
    let n_max = rts.trellis.n_max();

    let mut num_occurences = vec![0; 4];
    for idx in 0..num_seqences {
        let seq = rts.sequence_for_index(&Integer::from(idx)).unwrap();
        for amplitude in seq {
            num_occurences[(amplitude - 1) / 2] += 1;
        }
    }

    let full = rts.amplitude_distribution_full_utilization();
    assert_eq!(full.total, num_seqences);
    for (p, num) in probabilities(&full).iter().zip(num_occurences.clone()) {
        let num_from_distribution = p * num_seqences as f32 * n_max as f32;
        println!(
            "calc via amplitude distribution: {}, true: {}",
            num_from_distribution, num
        );
        assert_eq!(num_from_distribution as u32, num)
    }
    for (count, num) in full.counts.iter().zip(num_occurences) {
        assert_eq!(Integer::from(count * n_max), num);
    }
}

#[test]
fn rts_amplitude_distribution() {
    let rts_list = vec![
        ad_ess::rts::RTS::new(7, 4, &vec![2, 0, 2, 5]).unwrap(),
        ad_ess::rts::RTS::new(2, 3, &vec![2, 0, 2, 5]).unwrap(),
        ad_ess::rts::RTS::new(8, 5, &vec![2, 0, 2, 5]).unwrap(),
        ad_ess::rts::RTS::new(8, 5, &vec![0, 1, 1, 3]).unwrap(),
    ];

    for rts in rts_list {
        let num_sequences = rts.num_sequences();
        let num_used_sequences = Integer::u_pow_u(2, rts.num_bits())
            .complete()
            .to_usize()
            .unwrap();

        let mut amplitude_counts = vec![0; 4];

        for i in 0..num_used_sequences {
            let seq = rts.sequence_for_index(&Integer::from(i)).unwrap();
            for amplitude in seq {
                let amp_idx = (amplitude - 1) / 2;
                amplitude_counts[amp_idx] += 1;
            }
        }

        let distribution = rts.amplitude_distribution();
        let amp_dist = probabilities(&distribution);
        let rts_amp_counts: Vec<usize> = amp_dist
            .iter()
            .map(|p| (p * num_used_sequences as f32 * rts.trellis.n_max() as f32).round() as usize)
            .collect();
        let dist_sum = amp_dist.iter().sum::<f32>();

        println!();
        println!("rts.num_sequences:  {}", num_sequences);
        println!("num_used_sequences: {}", num_used_sequences);
        println!("rts.amplitude_distribution: {:?}", amp_dist);
        println!("sum of amplidude distribution: {}", dist_sum);
        println!(
            "Counts via rts.amplitude_distribution: {:?}",
            rts_amp_counts
        );
        println!(
            "Calculation via loop:                  {:?}",
            amplitude_counts
        );

        assert_eq!(dist_sum, 1.0, "sum of distribution does not equal 1");
        assert_eq!(
            rts_amp_counts, amplitude_counts,
            "rts.amplitude_distribution and loop counting differ"
        );
        assert_eq!(distribution.counts, amplitude_counts);
        assert_eq!(distribution.total, num_used_sequences * rts.trellis.n_max());
        let sum: Integer = distribution.counts.iter().sum();
        assert_eq!(sum, distribution.total);
    }
}
