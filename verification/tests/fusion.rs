use rank_biased_centroids::{rbc, rbc_with_weights, RbcError};

fn bits(x: f64) -> u64 {
    x.to_bits()
}

fn val(b: u64) -> f64 {
    f64::from_bits(b)
}

fn paper_lists() -> Vec<Vec<char>> {
    let r1 = vec!['A', 'D', 'B', 'C', 'G', 'F'];
    let r2 = vec!['B', 'D', 'E', 'C'];
    let r3 = vec!['A', 'B', 'D', 'C', 'G', 'F', 'E'];
    let r4 = vec!['G', 'D', 'E', 'A', 'F', 'C'];
    vec![r1, r2, r3, r4]
}

#[test]
fn reference_example_with_scores() {
    let res = rbc(paper_lists(), bits(0.9)).unwrap();
    let exp = vec![
        ('D', 0.35),
        ('C', 0.28),
        ('A', 0.27),
        ('B', 0.27),
        ('G', 0.23),
        ('E', 0.22),
        ('F', 0.18),
    ];
    let got = res.into_ranked_list_with_scores();
    assert_eq!(got.len(), exp.len());
    for ((c, s), (ec, es)) in got.into_iter().zip(exp.into_iter()) {
        assert_eq!(c, ec);
        assert!((val(s) - es).abs() <= 0.005);
    }
}

#[test]
fn reference_example_order() {
    let res = rbc(paper_lists(), bits(0.9)).unwrap();
    let exp = vec!['D', 'C', 'A', 'B', 'G', 'E', 'F'];
    assert_eq!(res.into_ranked_list(), exp);
}

#[test]
fn plain_ranking_projects_scored_ranking() {
    let plain = rbc(paper_lists(), bits(0.9)).unwrap().into_ranked_list();
    let scored = rbc(paper_lists(), bits(0.9)).unwrap().into_ranked_list_with_scores();
    let projected: Vec<char> = scored.into_iter().map(|(c, _)| c).collect();
    assert_eq!(plain, projected);
}

#[test]
fn weighted_reference_example() {
    let ws = vec![bits(0.3), bits(1.3), bits(0.4), bits(1.4)];
    let res = rbc_with_weights(paper_lists(), ws, bits(0.9)).unwrap();
    let exp = vec![
        ('D', 0.30),
        ('E', 0.24),
        ('C', 0.23),
        ('B', 0.19),
        ('G', 0.19),
        ('A', 0.17),
        ('F', 0.13),
    ];
    let got = res.into_ranked_list_with_scores();
    assert_eq!(got.len(), exp.len());
    for ((c, s), (ec, es)) in got.into_iter().zip(exp.into_iter()) {
        assert_eq!(c, ec);
        assert!((val(s) - es).abs() <= 0.005);
    }
}

#[test]
fn unit_weights_match_unweighted_bitwise() {
    let ws = vec![bits(1.0); 4];
    let weighted = rbc_with_weights(paper_lists(), ws, bits(0.9))
        .unwrap()
        .into_ranked_list_with_scores();
    let unweighted = rbc(paper_lists(), bits(0.9)).unwrap().into_ranked_list_with_scores();
    assert_eq!(weighted, unweighted);
}

#[test]
fn invalid_persistence_rejected() {
    for p in [1.0, 1.5, -0.2, f64::NAN, f64::INFINITY, f64::NEG_INFINITY] {
        let r = rbc(paper_lists(), bits(p));
        assert!(matches!(r, Err(RbcError::InvalidPersistence)));
        let rw = rbc_with_weights(paper_lists(), vec![bits(1.0); 4], bits(p));
        assert!(matches!(rw, Err(RbcError::InvalidPersistence)));
    }
}

#[test]
fn negative_zero_persistence_accepted() {
    let r = rbc(vec![vec![7u64]], bits(-0.0)).unwrap();
    let got = r.into_ranked_list_with_scores();
    assert_eq!(got.len(), 1);
    assert_eq!(val(got[0].1), 1.0);
}

#[test]
fn run_weight_count_mismatch_rejected() {
    let too_few = rbc_with_weights(paper_lists(), vec![bits(1.0); 3], bits(0.9));
    assert!(matches!(too_few, Err(RbcError::InvalidRunWeights)));
    let too_many = rbc_with_weights(paper_lists(), vec![bits(1.0); 5], bits(0.9));
    assert!(matches!(too_many, Err(RbcError::InvalidRunWeights)));
}

#[test]
fn non_finite_run_weights_rejected() {
    for bad in [f64::INFINITY, f64::NEG_INFINITY, f64::NAN] {
        let ws = vec![bits(1.0), bits(bad), bits(1.0), bits(1.0)];
        let r = rbc_with_weights(paper_lists(), ws, bits(0.9));
        assert!(matches!(r, Err(RbcError::InvalidRunWeights)));
    }
}

#[test]
fn empty_input_yields_empty_result() {
    let no_lists: Vec<Vec<u64>> = Vec::new();
    let plain = rbc(no_lists.clone(), bits(0.9)).unwrap().into_ranked_list();
    assert!(plain.is_empty());
    let scored = rbc(no_lists.clone(), bits(0.9)).unwrap().into_ranked_list_with_scores();
    assert!(scored.is_empty());
    let weighted = rbc_with_weights(no_lists, Vec::new(), bits(0.9))
        .unwrap()
        .into_ranked_list_with_scores();
    assert!(weighted.is_empty());
}

#[test]
fn result_items_are_exactly_the_input_items() {
    let lists = vec![vec![1u64, 2, 3], vec![3, 4], vec![4, 1, 5]];
    let got = rbc(lists, bits(0.6)).unwrap().into_ranked_list();
    let mut sorted = got.clone();
    sorted.sort_unstable();
    sorted.dedup();
    assert_eq!(sorted.len(), got.len());
    assert_eq!(sorted, vec![1, 2, 3, 4, 5]);
}

#[test]
fn schedule_matches_host_recurrence_bitwise() {
    // A single list: item at rank r scores exactly weight(r), so the whole
    // schedule is observable. The expected values follow the same
    // recurrence evaluated in hardware arithmetic.
    let n = 200usize;
    let items: Vec<u64> = (0..n as u64).collect();
    let p = 0.9f64;
    let got = rbc(vec![items], bits(p)).unwrap().into_ranked_list_with_scores();
    assert_eq!(got.len(), n);
    let mut w = 1.0 - p;
    for (r, (item, score)) in got.into_iter().enumerate() {
        assert_eq!(item, r as u64);
        assert_eq!(score, w.to_bits());
        w *= p;
    }
}

#[test]
fn schedule_weights_decrease_for_positive_persistence() {
    let items: Vec<u64> = (0..50).collect();
    let got = rbc(vec![items], bits(0.9)).unwrap().into_ranked_list_with_scores();
    for pair in got.windows(2) {
        assert!(val(pair[0].1) > val(pair[1].1));
    }
    for (_, s) in got {
        assert!(val(s) >= 0.0);
    }
}

#[test]
fn zero_persistence_scores_first_place_only() {
    let got = rbc(vec![vec!['a', 'b', 'c']], bits(0.0)).unwrap().into_ranked_list_with_scores();
    assert_eq!(got[0], ('a', bits(1.0)));
    assert_eq!(val(got[1].1), 0.0);
    assert_eq!(val(got[2].1), 0.0);
    assert_eq!(got[1].0, 'b');
    assert_eq!(got[2].0, 'c');
}

#[test]
fn one_minus_persistence_is_rank_zero_weight() {
    let got = rbc(vec![vec![9u64]], bits(0.25)).unwrap().into_ranked_list_with_scores();
    assert_eq!(got, vec![(9u64, bits(0.75))]);
}

#[test]
fn duplicate_items_accumulate_additively() {
    let got = rbc(vec![vec!['x', 'x']], bits(0.5)).unwrap().into_ranked_list_with_scores();
    assert_eq!(got, vec![('x', bits(0.75))]);
}

#[test]
fn run_weights_scale_contributions() {
    let got = rbc_with_weights(vec![vec!['x']], vec![bits(2.0)], bits(0.5))
        .unwrap()
        .into_ranked_list_with_scores();
    assert_eq!(got, vec![('x', bits(1.0))]);
}

#[test]
fn equal_scores_keep_first_encounter_order() {
    let got = rbc(vec![vec!['q'], vec!['z']], bits(0.9)).unwrap().into_ranked_list_with_scores();
    assert_eq!(got.len(), 2);
    assert_eq!(got[0].1, got[1].1);
    assert_eq!(got[0].0, 'q');
    assert_eq!(got[1].0, 'z');
}

#[test]
fn negative_run_weights_accepted() {
    let got = rbc_with_weights(vec![vec!['x']], vec![bits(-1.0)], bits(0.5))
        .unwrap()
        .into_ranked_list_with_scores();
    assert_eq!(got.len(), 1);
    assert_eq!(val(got[0].1), -0.5);
}

#[test]
fn zero_run_weight_items_still_appear() {
    let lists = vec![vec!['a'], vec!['b']];
    let got = rbc_with_weights(lists, vec![bits(0.0), bits(1.0)], bits(0.5))
        .unwrap()
        .into_ranked_list_with_scores();
    assert_eq!(got.len(), 2);
    assert_eq!(got[0], ('b', bits(0.5)));
    assert_eq!(got[1].0, 'a');
    assert_eq!(val(got[1].1), 0.0);
}
