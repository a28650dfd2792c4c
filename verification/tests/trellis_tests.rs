use ad_ess::ad_ess::AdEss;
use ad_ess::error::ShapingError;
use ad_ess::trellis::Trellis;
use ad_ess::trellis_utils;
use rug::{Complete, Integer};

#[test]
fn incremental_reverse_trellis_vs_traditional() {
    let weights = vec![2, 0, 5, 0, 2];
    let n_max = 5;
    let threshold = 11;
    let adess = AdEss::new(threshold, n_max, &weights).unwrap();
    let num_bits = adess.num_bits();

    let traditional_reverse_trellis = adess.reverse_trellis();
    let reverse_trellis = trellis_utils::reverse_trellis_upto_num_sequences(
        Integer::u_pow_u(2, num_bits as u32).complete(),
        n_max,
        &adess.trellis.get_weights(),
    )
    .unwrap();

    println!(
        "Traditional reverse trellis num sequences: {}",
        traditional_reverse_trellis
            .get_stage(n_max)
            .iter()
            .sum::<Integer>()
    );
    println!(
        "Incremental reverse trellis num sequences: {}",
        reverse_trellis.get_stage(n_max).iter().sum::<Integer>()
    );

    for s in 0..n_max + 1 {
        for (idx, (auto, inc)) in traditional_reverse_trellis
            .get_stage(s)
            .iter()
            .zip(&reverse_trellis.get_stage(s))
            .enumerate()
        {
            if auto != inc {
                println!("stage: {}, idx:{}, auto: {}, inc: {}", s, idx, auto, inc);
                panic!("The two reverse trellises differ");
            }
        }
    }
}

#[test]
fn reverse_trellis_lexicographically_bounded() {
    let rt = trellis_utils::reverse_trellis_lexicographically_bounded(
        7,
        4,
        &[0, 1, 3, 6],
        &[5, 1, 3, 1],
    )
    .unwrap();
    let mut paper_example = Trellis::new(7, 4, &[0, 1, 3, 6]).unwrap();
    paper_example.set(1, 0, Integer::from(1));
    paper_example.set(1, 1, Integer::from(1));
    paper_example.set(2, 0, Integer::from(1));
    paper_example.set(2, 1, Integer::from(2));
    paper_example.set(2, 2, Integer::from(1));
    paper_example.set(2, 3, Integer::from(1));
    paper_example.set(2, 4, Integer::from(1));
    paper_example.set(2, 6, Integer::from(1));
    paper_example.set(2, 7, Integer::from(1));
    paper_example.set(3, 0, Integer::from(1));
    paper_example.set(3, 1, Integer::from(3));
    paper_example.set(3, 2, Integer::from(3));
    paper_example.set(3, 3, Integer::from(4));
    paper_example.set(3, 4, Integer::from(4));
    paper_example.set(3, 5, Integer::from(2));
    paper_example.set(3, 6, Integer::from(3));
    paper_example.set(3, 7, Integer::from(5));
    paper_example.set(4, 0, Integer::from(1));
    paper_example.set(4, 1, Integer::from(4));
    paper_example.set(4, 2, Integer::from(6));
    paper_example.set(4, 3, Integer::from(8));
    paper_example.set(4, 4, Integer::from(11));
    paper_example.set(4, 5, Integer::from(9));
    paper_example.set(4, 6, Integer::from(10));
    paper_example.set(4, 7, Integer::from(15));

    assert_eq!(rt, paper_example);
}

#[test]
fn trellis_weight_levels_are_the_reachable_sums() {
    let trellis = Trellis::new(7, 4, &[0, 1, 3, 6]).unwrap();
    assert_eq!(trellis.get_weight_levels(), vec![0, 1, 2, 3, 4, 5, 6, 7]);
    let sparse = Trellis::new(11, 5, &[2, 0, 5, 0, 2]).unwrap();
    assert_eq!(sparse.get_weight_levels(), vec![0, 2, 4, 5, 6, 7, 8, 9, 10, 11]);
    assert_eq!(sparse.get_num_weight_levels(), 10);
    assert_eq!(sparse.get_storage_dimensions(), (6, 10));
    assert_eq!(sparse.get_weight_level_index(5), 3);
    assert_eq!(sparse.get_weight(2), 5);
    assert_eq!(sparse.threshold(), 11);
    assert_eq!(sparse.n_max(), 5);
}

#[test]
fn trellis_adjacency_order() {
    let trellis = Trellis::new(11, 5, &[2, 0, 5, 0, 2]).unwrap();
    // ascending weight level, ties by ascending symbol
    assert_eq!(trellis.get_successors(4), vec![(1, 4), (3, 4), (0, 6), (4, 6), (2, 9)]);
    assert_eq!(trellis.get_successors(7), vec![(1, 7), (3, 7), (0, 9), (4, 9)]);
    assert!(trellis.get_successors(12).is_empty());
    // ascending predecessor level, ties by descending symbol
    assert_eq!(trellis.get_predecessors(7), vec![(2, 2), (4, 5), (0, 5), (3, 7), (1, 7)]);
    // 3 - 2 = 1 is no weight level
    assert_eq!(trellis.get_predecessors(5), vec![(2, 0), (3, 5), (1, 5)]);
}

#[test]
fn trellis_get_set_add() {
    let mut trellis = Trellis::new(7, 4, &[0, 1, 3, 6]).unwrap();
    assert_eq!(trellis.get(2, 3), 0);
    trellis.set(2, 3, Integer::from(5));
    trellis.add(2, 3, Integer::from(7));
    assert_eq!(trellis.get(2, 3), 12);
    assert_eq!(trellis.get_or_0(2, 3), 12);
    assert_eq!(trellis.get_or_0(2, 8), 0);
    assert_eq!(trellis.get_or_0(2, 1000), 0);
    assert_eq!(trellis.get(2, 2), 0);
    let like = Trellis::new_like(&trellis);
    assert_eq!(like.get(2, 3), 0);
    assert!(like != trellis);
    assert!(like == Trellis::new(7, 4, &[0, 1, 3, 6]).unwrap());
}

#[test]
fn trellis_expands_one_level_at_a_time() {
    let mut trellis = Trellis::new_expandable(2, &[0, 3]).unwrap();
    assert_eq!(trellis.get_weight_levels(), vec![0, 3, 6]);
    assert_eq!(trellis.get_num_weight_levels(), 0);
    let mut column = vec![Integer::from(1), Integer::from(2), Integer::from(3)];
    assert_eq!(trellis.expand_with(&mut column), Ok(()));
    assert!(column.is_empty());
    assert_eq!(trellis.get_num_weight_levels(), 1);
    assert_eq!(trellis.threshold(), 0);
    assert_eq!(trellis.get(0, 0), 1);
    assert_eq!(trellis.get(2, 0), 3);
    for level in [3, 6] {
        let mut column = vec![Integer::from(4), Integer::from(5), Integer::from(6)];
        assert_eq!(trellis.expand_with(&mut column), Ok(()));
        assert_eq!(trellis.threshold(), level);
        assert_eq!(trellis.get(1, level), 5);
    }
    let mut column = vec![Integer::from(7), Integer::from(8), Integer::from(9)];
    assert_eq!(trellis.expand_with(&mut column), Err(ShapingError::TrellisFull));
    assert_eq!(column.len(), 3);
}

#[test]
fn trellis_rejects_weights_without_zero() {
    assert_eq!(Trellis::new(7, 4, &[1, 2]).err(), Some(ShapingError::InvalidConfiguration));
    assert_eq!(Trellis::new(7, 4, &[]).err(), Some(ShapingError::InvalidConfiguration));
    assert_eq!(Trellis::new_expandable(4, &[1, 2]).err(), Some(ShapingError::InvalidConfiguration));
}

#[test]
fn forward_and_reverse_counts_agree() {
    for (threshold, n_max, weights) in [
        (9, 4, vec![2, 0, 2, 5]),
        (8, 5, vec![2, 0, 2, 5]),
        (6, 3, vec![5, 0, 2, 0]),
        (4, 5, vec![0, 1, 1, 3]),
        (30, 5, vec![0, 1, 3, 6]),
        (7, 4, vec![0, 1, 3, 6]),
    ] {
        let adess = AdEss::new(threshold, n_max, &weights).unwrap();
        let reverse = adess.reverse_trellis();
        let total: Integer = reverse.get_stage(n_max).iter().sum();
        assert_eq!(adess.num_sequences(), total);
    }
}

#[test]
fn incremental_reverse_trellis_reports_too_many_sequences() {
    let r = trellis_utils::reverse_trellis_upto_num_sequences(Integer::from(257), 4, &[0, 1, 3, 6]);
    assert_eq!(r.err(), Some(ShapingError::TooManySequences));
    let r = trellis_utils::reverse_trellis_upto_num_sequences(Integer::from(256), 4, &[0, 1, 3, 6]);
    assert_eq!(r.unwrap().threshold(), 24);
    let r = trellis_utils::reverse_trellis_upto_num_sequences(Integer::from(65), 4, &[0, 1, 3, 6]);
    assert_eq!(r.unwrap().threshold(), 7);
}

#[test]
fn trellis_rows_from_the_highest_level_down() {
    let reverse_trellis =
        trellis_utils::reverse_trellis_upto_num_sequences(Integer::from(7), 2, &[0, 1, 3]).unwrap();
    // weights 0, 1, 3 in two stages: the levels 0, 1, 2, 3, 4 hold 1, 2, 1, 2, 2 sequences;
    // the first four hold 6 of them, the fifth is needed for 7
    assert_eq!(reverse_trellis.get_weight_levels(), vec![0, 1, 2, 3, 4, 5, 6]);
    assert_eq!(reverse_trellis.get_num_weight_levels(), 5);
    let rows = trellis_utils::trellis_rows(&reverse_trellis);
    let expected: Vec<(usize, Vec<Integer>)> = vec![
        (4, vec![Integer::from(0), Integer::from(0), Integer::from(2)]),
        (3, vec![Integer::from(0), Integer::from(1), Integer::from(2)]),
        (2, vec![Integer::from(0), Integer::from(0), Integer::from(1)]),
        (1, vec![Integer::from(0), Integer::from(1), Integer::from(2)]),
        (0, vec![Integer::from(1), Integer::from(1), Integer::from(1)]),
    ];
    assert_eq!(rows, expected);
    for (wl, entries) in rows {
        let line: String = entries.iter().map(|v| format!(" {:>5}", v.to_string())).collect();
        println!("{wl:<5}| {line}");
    }
}
