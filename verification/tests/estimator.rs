use count_unique_cvm::cvm::{Estimate, UNIT};
use count_unique_cvm::estimator::Estimator;
use rand::rngs::mock::StepRng;
use rand::rngs::StdRng;
use rand::SeedableRng;

#[test]
fn a_new_estimator_has_no_record() {
    let e = Estimator::new(StdRng::seed_from_u64(1), 23, 65535, StdRng::seed_from_u64(2), 8);
    assert!(e.estimates().is_empty());
    assert!(e.actual_values().is_empty());
}

#[test]
fn an_empty_stream_holds_nothing() {
    let mut e = Estimator::new(StdRng::seed_from_u64(1), 23, 65535, StdRng::seed_from_u64(2), 8);
    assert_eq!(e.estimate_tokens(0), Ok((Estimate { occupancy: 0, threshold: UNIT }, 0)));
    // no token is drawn, so the bounds may be in any order
    let mut e = Estimator::new(StdRng::seed_from_u64(1), 9, 3, StdRng::seed_from_u64(2), 8);
    assert_eq!(e.estimate_tokens(0), Ok((Estimate { occupancy: 0, threshold: UNIT }, 0)));
}

#[test]
fn one_possible_token_is_one_distinct_token() {
    let mut e = Estimator::new(StdRng::seed_from_u64(1), 77, 77, StdRng::seed_from_u64(2), 1);
    assert_eq!(e.estimate_tokens(500), Ok((Estimate { occupancy: 1, threshold: UNIT }, 1)));
}

#[test]
fn with_room_for_every_token_the_estimate_is_the_count() {
    let mut e = Estimator::new(StdRng::seed_from_u64(5), 100, 119, StdRng::seed_from_u64(6), 20);
    for run in 0..10 {
        let (estimate, actual) = e.estimate_tokens(15 + run * 10).unwrap();
        assert_eq!(estimate, Estimate { occupancy: actual, threshold: UNIT });
        assert!(actual <= 20);
        assert!(actual as u64 <= 15 + run * 10);
        // more than one token of the range comes up
        assert!(actual > 1);
    }
    // after enough tokens every one of the twenty has been seen
    assert_eq!(e.estimate_tokens(2000), Ok((Estimate { occupancy: 20, threshold: UNIT }, 20)));
}

#[test]
fn each_run_is_recorded() {
    let mut e = Estimator::new(StdRng::seed_from_u64(11), 0, 999, StdRng::seed_from_u64(12), 16);
    let mut estimates = Vec::new();
    let mut actuals = Vec::new();
    for tokens in [0u64, 5, 50, 500, 5000] {
        let (estimate, actual) = e.estimate_tokens(tokens).unwrap();
        assert!(estimate.occupancy <= 16);
        assert!(estimate.occupancy <= actual);
        assert!(estimate.threshold <= UNIT);
        assert!(actual as u64 <= tokens);
        estimates.push(estimate);
        actuals.push(actual);
        assert_eq!(e.estimates(), &estimates);
        assert_eq!(e.actual_values(), &actuals);
    }
    // five thousand tokens out of a thousand: more than the reservoir holds
    assert!(actuals[4] > 16);
    assert!(estimates[4].threshold < UNIT);
}

#[test]
fn tokens_and_draws_come_from_their_own_generators() {
    // tokens 3, 4, 5, ... from the first generator; the draw is always zero
    let mut e = Estimator::new(StepRng::new(0, 0), 3, 3, StepRng::new(0, 0), 2);
    assert_eq!(e.estimate_tokens(10), Ok((Estimate { occupancy: 1, threshold: UNIT }, 1)));
}

#[test]
fn a_run_over_given_tokens_counts_the_distinct_ones() {
    let mut e = Estimator::new(StdRng::seed_from_u64(1), 0, 9, StdRng::seed_from_u64(2), 8);
    let outcome = e.run_over(&vec![5, 7, 5, 9, 7, 5]);
    assert_eq!(outcome, Ok((Estimate { occupancy: 3, threshold: UNIT }, 3)));
    assert_eq!(e.run_over(&vec![]), Ok((Estimate { occupancy: 0, threshold: UNIT }, 0)));
    assert_eq!(e.run_over(&vec![4; 50]), Ok((Estimate { occupancy: 1, threshold: UNIT }, 1)));
    assert_eq!(e.estimates().len(), 3);
    assert_eq!(e.actual_values(), &vec![3, 0, 1]);
}

#[test]
fn a_run_over_more_tokens_than_fit_lowers_the_threshold() {
    let mut e = Estimator::new(StdRng::seed_from_u64(1), 0, 9, StdRng::seed_from_u64(2), 4);
    let tokens: Vec<u64> = (0..100).collect();
    let (estimate, actual) = e.run_over(&tokens).unwrap();
    assert_eq!(actual, 100);
    assert!(estimate.occupancy <= 4);
    assert!(estimate.threshold < UNIT);
    // the draws are always zero: the second token takes the place of the first, the
    // threshold becomes zero, and the third token is rejected
    let mut e = Estimator::new(StepRng::new(0, 0), 0, 9, StepRng::new(0, 0), 1);
    assert_eq!(e.run_over(&vec![1, 2, 3]), Ok((Estimate { occupancy: 1, threshold: 0 }, 3)));
}

#[test]
fn the_tokens_do_not_depend_on_the_draws() {
    // the same seed gives the same tokens, whatever the draws are
    let mut a = Estimator::new(StdRng::seed_from_u64(3), 0, 99, StdRng::seed_from_u64(4), 200);
    let mut b = Estimator::new(StdRng::seed_from_u64(3), 0, 99, StdRng::seed_from_u64(5), 200);
    for tokens in [10u64, 100, 1000] {
        let (ea, na) = a.estimate_tokens(tokens).unwrap();
        let (eb, nb) = b.estimate_tokens(tokens).unwrap();
        assert_eq!(na, nb);
        assert_eq!(ea, Estimate { occupancy: na, threshold: UNIT });
        assert_eq!(eb, ea);
    }
}
