use tinyufo::estimator::{Estimator, TinyLFU};

#[test]
fn estimator_test_optimal_params() {
    let (slots, hashes) = Estimator::optimal_params(1_000_000);
    assert_eq!(slots, 2718282);
    assert_eq!(hashes, 20);
}

#[test]
fn estimator_test_sanity() {
    let mut estimator = Estimator::new_optimal(64);
    assert_eq!(estimator.get(1), 0);
    estimator.incr(1);
    assert_eq!(estimator.get(1), 1);
}

#[test]
fn test_sanity_estimator() {
    let mut estimator = Estimator::new_optimal(64);
    assert_eq!(estimator.get(1), 0);
    estimator.incr(1);
    assert_eq!(estimator.get(1), 1);
}

#[test]
fn test_sanity_tinylfu() {
    let mut lfu = TinyLFU::new(64);
    assert_eq!(lfu.get(1), 0);
    lfu.incr(1);
    assert_eq!(lfu.get(1), 1);
}

#[test]
fn optimal_params_small_inputs() {
    // width never below 16, depth never below 2
    assert_eq!(Estimator::optimal_params(0), (16, 2));
    assert_eq!(Estimator::optimal_params(1), (16, 2));
    // ceil(e * 10) = 28, ceil(log2(10)) = 4
    assert_eq!(Estimator::optimal_params(10), (28, 4));
    // exact powers of two: ceil(log2(64)) = 6, ceil(e * 64) = 174
    assert_eq!(Estimator::optimal_params(64), (174, 6));
    assert_eq!(Estimator::optimal_params(65), (177, 7));
}

#[test]
fn incr_returns_new_estimate() {
    let mut estimator = Estimator::new(4, 32);
    assert_eq!(estimator.incr(7), 1);
    assert_eq!(estimator.incr(7), 2);
    assert_eq!(estimator.get(7), 2);
}

#[test]
fn estimate_bounded_by_observations() {
    let mut estimator = Estimator::new_optimal(1000);
    for n in 1..=20u32 {
        estimator.incr(42);
        assert!(u32::from(estimator.get(42)) <= n.min(255));
    }
    assert_eq!(estimator.get(42), 20);
}

#[test]
fn estimate_monotone_between_agings() {
    let mut estimator = Estimator::with_seeds(vec![1, 2], 16);
    estimator.incr(5);
    let mut last = estimator.get(5);
    for key in 0..200u64 {
        estimator.incr(key);
        let now = estimator.get(5);
        assert!(now >= last);
        last = now;
    }
}

#[test]
fn age_shifts_every_counter() {
    let mut estimator = Estimator::with_seeds(vec![11, 22, 33], 64);
    for _ in 0..9 {
        estimator.incr(3);
    }
    for _ in 0..5 {
        estimator.incr(4);
    }
    let before3 = estimator.get(3);
    let before4 = estimator.get(4);
    estimator.age(2);
    assert!(estimator.get(3) <= before3 >> 2);
    assert!(estimator.get(4) <= before4 >> 2);
    assert_eq!(estimator.get(3), before3 >> 2);
}

#[test]
fn saturation_and_halving() {
    let mut estimator = Estimator::new_optimal(64);
    for _ in 0..300 {
        estimator.incr(9);
    }
    assert_eq!(estimator.get(9), 255);
    assert_eq!(estimator.incr(9), 255);
    estimator.age(1);
    assert_eq!(estimator.get(9), 127);
}

#[test]
fn window_ages_the_sketch() {
    let seeds = vec![0x1234_5678, 0x9abc_def0];
    let k: u64 = 1000;
    // pick eight keys that leave k's estimate at one
    let mut unrelated = Vec::new();
    let mut candidate: u64 = 0;
    while unrelated.len() < 8 {
        let mut trial = Estimator::with_seeds(seeds.clone(), 16);
        trial.incr(k);
        for u in &unrelated {
            trial.incr(*u);
        }
        trial.incr(candidate);
        if trial.get(k) == 1 {
            unrelated.push(candidate);
        }
        candidate += 1;
    }
    let mut lfu = TinyLFU::with_estimator(Estimator::with_seeds(seeds, 16), 1);
    assert_eq!(lfu.incr(k), 1);
    assert_eq!(lfu.get(k), 1);
    for u in &unrelated[..7] {
        lfu.incr(*u);
    }
    assert_eq!(lfu.get(k), 1);
    // the ninth observation finds the window full and ages first
    lfu.incr(unrelated[7]);
    assert_eq!(lfu.get(k), 0);
}

#[test]
fn keys_spread_over_columns() {
    // with an identity hash, keys 0 and 16 would share every column
    let mut estimator = Estimator::with_seeds(vec![1, 2, 3], 16);
    estimator.incr(0);
    assert_eq!(estimator.get(0), 1);
    assert_eq!(estimator.get(16), 0);
}
